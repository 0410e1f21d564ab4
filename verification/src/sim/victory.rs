//! The win condition and the end of the match.
//!
//! The rule is content: a building whose definition says `victory` is the thing
//! whose loss loses the match. A match can be decided only once both sides have
//! been seen with such a building at the start of a tick, so a loss on the very
//! first tick decides exactly like any other. The outcome is written once.

use vstd::prelude::*;

use crate::counting;
use crate::sim::content::Content;
use crate::sim::spatial::Faction;

verus! {

/// How the match ended: the winner (`None` is a draw, both headquarters fell on
/// one tick) and the tick it was decided on.
#[derive(Debug, Clone, Copy, PartialEq, Eq, Structural)]
pub struct MatchOutcome {
    pub winner: Option<Faction>,
    pub tick: u32,
}

/// The match: how many ticks it has run, whether it is contested yet, and its
/// outcome once decided.
#[derive(Debug, Clone, Copy, PartialEq, Eq, Structural)]
pub struct MatchState {
    tick: u32,
    engaged: bool,
    outcome: Option<MatchOutcome>,
}

/// A standing building: its definition and whose it is.
#[derive(Debug, Clone, Copy, PartialEq, Eq, Structural)]
pub struct Standing {
    pub def: usize,
    pub faction: Faction,
}

/// Is this a victory building of `f`?
pub open spec fn holds_for(content: Content, f: Faction) -> spec_fn(Standing) -> bool {
    |s: Standing|
        s.faction == f && s.def < content.buildings@.len() && content.buildings@[s.def as int].victory
}

/// How many victory buildings `f` has standing.
pub open spec fn standing_for(content: Content, rows: Seq<Standing>, f: Faction) -> nat {
    counting::count(rows, holds_for(content, f))
}

/// Who wins when `a` and `b` victory buildings stand.
pub open spec fn decision(a: nat, b: nat, tick: u32) -> Option<MatchOutcome> {
    if a == 0 && b == 0 {
        Some(MatchOutcome { winner: None, tick })
    } else if a == 0 {
        Some(MatchOutcome { winner: Some(Faction::B), tick })
    } else if b == 0 {
        Some(MatchOutcome { winner: Some(Faction::A), tick })
    } else {
        None
    }
}

/// One tick further, as far as the counter goes.
pub open spec fn next_tick(t: u32) -> u32 {
    if t == u32::MAX {
        u32::MAX
    } else {
        (t + 1) as u32
    }
}

impl Default for MatchState {
    fn default() -> (r: Self)
        ensures
            r.at_tick() == 0,
            !r.contested(),
            r.result() is None,
    {
        MatchState { tick: 0, engaged: false, outcome: None }
    }
}

impl MatchState {
    pub closed spec fn at_tick(&self) -> u32 {
        self.tick
    }

    pub closed spec fn contested(&self) -> bool {
        self.engaged
    }

    pub closed spec fn result(&self) -> Option<MatchOutcome> {
        self.outcome
    }

    /// Ticks elapsed. Stops once the match is over.
    pub fn tick(&self) -> (r: u32)
        ensures
            r == self.at_tick(),
    {
        self.tick
    }

    /// Have both sides been seen with a victory building at the start of some
    /// tick?
    pub fn engaged(&self) -> (r: bool)
        ensures
            r == self.contested(),
    {
        self.engaged
    }

    pub fn outcome(&self) -> (r: Option<MatchOutcome>)
        ensures
            r == self.result(),
    {
        self.outcome
    }

    pub fn is_over(&self) -> (r: bool)
        ensures
            r == self.result() is Some,
    {
        self.outcome.is_some()
    }
}

/// Does the sim go on? Nothing plays after the result is recorded.
pub fn match_running(state: &MatchState) -> (r: bool)
    ensures
        r == state.result() is None,
{
    !state.is_over()
}

/// Standing victory buildings per faction.
pub fn count_victory_buildings(content: &Content, rows: &Vec<Standing>) -> (r: [u32; 2])
    requires
        rows@.len() <= u32::MAX,
    ensures
        r@[0] == standing_for(*content, rows@, Faction::A),
        r@[1] == standing_for(*content, rows@, Faction::B),
{
    let mut a: u32 = 0;
    let mut b: u32 = 0;
    let mut i: usize = 0;
    while i < rows.len()
        invariant
            i <= rows@.len(),
            rows@.len() <= u32::MAX,
            a == standing_for(*content, rows@.take(i as int), Faction::A),
            b == standing_for(*content, rows@.take(i as int), Faction::B),
            a <= i,
            b <= i,
        decreases rows@.len() - i,
    {
        proof {
            counting::lemma_count_next(rows@, holds_for(*content, Faction::A), i as int);
            counting::lemma_count_next(rows@, holds_for(*content, Faction::B), i as int);
        }
        let s: Standing = rows[i];
        if s.def < content.buildings.len() && content.buildings[s.def].victory {
            match s.faction {
                Faction::A => {
                    a = a + 1;
                },
                Faction::B => {
                    b = b + 1;
                },
            }
        }
        i = i + 1;
    }
    assert(rows@.take(i as int) =~= rows@);
    [a, b]
}

/// Observe whether the match is contested, before the tick is played.
pub fn match_watch(content: &Content, state: &mut MatchState, rows: &Vec<Standing>)
    requires
        rows@.len() <= u32::MAX,
    ensures
        final(state).at_tick() == old(state).at_tick(),
        final(state).result() == old(state).result(),
        final(state).contested() == (old(state).contested() || (old(state).result() is None
            && standing_for(*content, rows@, Faction::A) > 0 && standing_for(
            *content,
            rows@,
            Faction::B,
        ) > 0)),
{
    if state.engaged || state.is_over() {
        return ;
    }
    let standing: [u32; 2] = count_victory_buildings(content, rows);
    state.engaged = standing[0] > 0 && standing[1] > 0;
}

/// Decide the match on the state the tick ended in: whoever still has a victory
/// building when the other side has none has won.
pub fn match_end(content: &Content, state: &mut MatchState, rows: &Vec<Standing>)
    requires
        rows@.len() <= u32::MAX,
    ensures
        old(state).result() is Some ==> *final(state) == *old(state),
        old(state).result() is None ==> {
            &&& final(state).at_tick() == next_tick(old(state).at_tick())
            &&& final(state).contested() == old(state).contested()
            &&& final(state).result() == if old(state).contested() {
                decision(
                    standing_for(*content, rows@, Faction::A),
                    standing_for(*content, rows@, Faction::B),
                    old(state).at_tick(),
                )
            } else {
                None
            }
        },
{
    if state.is_over() {
        return ;
    }
    let standing: [u32; 2] = count_victory_buildings(content, rows);
    let tick: u32 = state.tick;
    state.tick = state.tick.saturating_add(1);
    if !state.engaged {
        return ;
    }
    if standing[0] == 0 && standing[1] == 0 {
        state.outcome = Some(MatchOutcome { winner: None, tick });
    } else if standing[0] == 0 {
        state.outcome = Some(MatchOutcome { winner: Some(Faction::B), tick });
    } else if standing[1] == 0 {
        state.outcome = Some(MatchOutcome { winner: Some(Faction::A), tick });
    }
}

/// The outcome cannot depend on the order in which buildings are listed.
pub proof fn verdict_ignores_order(content: Content, a: Seq<Standing>, b: Seq<Standing>, f: Faction)
    requires
        a.to_multiset() == b.to_multiset(),
    ensures
        standing_for(content, a, f) == standing_for(content, b, f),
{
    counting::count_ignores_order(a, b, holds_for(content, f));
}

/// Swapping the sides swaps the winner: neither side is favoured.
pub proof fn decision_is_fair(a: nat, b: nat, tick: u32)
    ensures
        decision(a, b, tick) is Some == decision(b, a, tick) is Some,
        decision(a, b, tick) matches Some(o) ==> decision(b, a, tick)->0.winner == match o.winner {
            Some(f) => Some(f.foe()),
            None => None,
        },
{
}

/// Has `f` a building standing whose loss decides the match?
pub open spec fn stands(content: Content, rows: Seq<Standing>, f: Faction) -> bool {
    exists|i: int|
        0 <= i < rows.len() && (#[trigger] rows[i]).faction == f && rows[i].def
            < content.buildings@.len() && content.buildings@[rows[i].def as int].victory
}

proof fn lemma_stands(content: Content, rows: Seq<Standing>, f: Faction, k: int)
    requires
        0 <= k <= rows.len(),
    ensures
        counting::count(rows.take(k), holds_for(content, f)) > 0 <==> exists|i: int|
            0 <= i < k && (#[trigger] rows[i]).faction == f && rows[i].def
                < content.buildings@.len() && content.buildings@[rows[i].def as int].victory,
        k == rows.len() ==> (standing_for(content, rows, f) > 0 <==> stands(content, rows, f)),
    decreases k,
{
    if k > 0 {
        lemma_stands(content, rows, f, k - 1);
        counting::lemma_count_next(rows, holds_for(content, f), k - 1);
    }
    assert(rows.take(rows.len() as int) =~= rows);
}

/// The side that still stands wins: a match is decided once a side has no
/// building left whose loss decides it, for the other side if that one has, for
/// nobody if it has none either; while both stand, it goes on.
pub proof fn the_side_that_stands_wins(content: Content, rows: Seq<Standing>, tick: u32, f: Faction)
    ensures
        ({
            let d = decision(
                standing_for(content, rows, Faction::A),
                standing_for(content, rows, Faction::B),
                tick,
            );
            let (mine, theirs) = (stands(content, rows, f), stands(content, rows, f.foe()));
            &&& d is None <==> mine && theirs
            &&& d == Some(MatchOutcome { winner: Some(f), tick }) <==> mine && !theirs
            &&& d == Some(MatchOutcome { winner: None, tick }) <==> !mine && !theirs
        }),
{
    lemma_stands(content, rows, Faction::A, rows.len() as int);
    lemma_stands(content, rows, Faction::B, rows.len() as int);
}

/// A match is contested from the first tick on that starts with both sides
/// standing.
pub proof fn both_stand_when_both_count(content: Content, rows: Seq<Standing>)
    ensures
        standing_for(content, rows, Faction::A) > 0 && standing_for(content, rows, Faction::B) > 0
            <==> stands(content, rows, Faction::A) && stands(content, rows, Faction::B),
{
    lemma_stands(content, rows, Faction::A, rows.len() as int);
    lemma_stands(content, rows, Faction::B, rows.len() as int);
}

/// The clock goes on by one tick, and never back.
pub proof fn the_clock_goes_on(t: u32)
    ensures
        t < u32::MAX ==> next_tick(t) == t + 1,
        next_tick(t) >= t,
{
}

} // verus!
