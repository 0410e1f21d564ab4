//! The scripted commanders.
//!
//! A commander changes nothing itself: it reads the world and issues orders,
//! signed with its own faction, onto the queue that the player's go to. It
//! counts ticks, never seconds, and its only randomness is its own generator.

pub mod laws;
pub mod think;

pub use think::{act, ai_commanders, Decision, Thought};

use vstd::prelude::*;

use crate::float::Point;
use crate::sim::content::lookup;
use crate::sim::content::{Content, StrategyDef};
use crate::sim::spatial::{faction_slot, Faction, SplitMix64, GOLDEN};
use crate::sim::world::Entity;
use crate::text;

verus! {

/// A strategy was named that the content does not have. Every number a batch
/// reports is keyed by strategy name, so a typo stops the caller.
#[derive(Debug, Clone)]
pub struct UnknownStrategy {
    /// The id that named nothing.
    pub id: String,
    /// The side that asked for it, when it was asked for on a side's behalf.
    pub faction: Option<Faction>,
}

/// The letter of a side.
pub open spec fn letter(f: Faction) -> Seq<char> {
    match f {
        Faction::A => "A"@,
        Faction::B => "B"@,
    }
}

/// The letter of a side.
pub fn side_letter(f: Faction) -> (r: &'static str)
    ensures
        r@ == letter(f),
{
    match f {
        Faction::A => "A",
        Faction::B => "B",
    }
}

impl UnknownStrategy {
    pub open spec fn shown(&self) -> Seq<char> {
        match self.faction {
            Some(who) => "no strategy `"@ + self.id@ + "` (asked for by "@ + letter(who) + ")"@,
            None => "no strategy `"@ + self.id@ + "`"@,
        }
    }

    /// The text of the error.
    pub fn message(&self) -> (r: String)
        ensures
            r@ == self.shown(),
    {
        match self.faction {
            Some(who) => text::cat5(
                "no strategy `",
                self.id.as_str(),
                "` (asked for by ",
                side_letter(who),
                ")",
            ),
            None => text::cat3("no strategy `", self.id.as_str(), "`"),
        }
    }
}

/// One decision a commander took.
#[allow(inconsistent_fields)]
#[derive(Clone, Copy, PartialEq, Eq, Structural, Debug)]
pub enum AiAction {
    /// Sent an idle gatherer to a deposit.
    Gather { unit: Entity, node: Entity },
    /// Queued a worker at its headquarters.
    TrainWorker { at: Entity },
    /// Placed one of the barracks its strategy opens.
    PlaceBarracks { building: usize, pos: Point },
    /// Queued the next unit of the army build order.
    TrainArmy { unit: usize },
    /// Sent `force` combat units at the enemy headquarters.
    Attack { dest: Point, force: u32 },
}

/// Every action every commander has taken, in order.
#[derive(Debug)]
pub struct AiJournal(pub Vec<(u32, Faction, AiAction)>);

impl Default for AiJournal {
    fn default() -> (r: Self)
        ensures
            r.0@.len() == 0,
    {
        AiJournal(Vec::new())
    }
}

/// The actions of one side among the first `k` entries, tick-tagged.
pub open spec fn actions_of(all: Seq<(u32, Faction, AiAction)>, f: Faction, k: int) -> Seq<
    (u32, AiAction),
>
    decreases k,
{
    if k <= 0 {
        Seq::empty()
    } else if all[k - 1].1 == f {
        actions_of(all, f, k - 1).push((all[k - 1].0, all[k - 1].2))
    } else {
        actions_of(all, f, k - 1)
    }
}

impl AiJournal {
    /// The actions of one commander, tick-tagged.
    pub fn for_faction(&self, f: Faction) -> (r: Vec<(u32, AiAction)>)
        ensures
            r@ == actions_of(self.0@, f, self.0@.len() as int),
    {
        let mut out: Vec<(u32, AiAction)> = Vec::new();
        let mut k: usize = 0;
        while k < self.0.len()
            invariant
                k <= self.0@.len(),
                out@ == actions_of(self.0@, f, k as int),
            decreases self.0@.len() - k,
        {
            let (tick, who, action) = self.0[k];
            if who == f {
                out.push((tick, action));
            }
            k = k + 1;
        }
        out
    }
}

/// One scripted commander's private state: timers, cursors and its generator.
#[derive(Debug, Clone, Copy)]
pub struct AiCommander {
    pub faction: Faction,
    /// Which script it runs: an index into the content's strategies, or `None`
    /// for the content's default.
    pub strategy: Option<usize>,
    pub rng: SplitMix64,
    /// Ticks this commander has been alive: its only clock.
    pub tick: u32,
    /// How far into the repeating army build order it is.
    pub army_cursor: u32,
    /// Earliest tick the next attack wave may go out.
    pub next_attack_tick: u32,
}

/// Where a side's generator starts: a function of the match seed and the side,
/// and of nothing else.
pub open spec fn stream_start(f: Faction, seed: u64) -> u64 {
    seed ^ match f {
        Faction::A => 0u64,
        Faction::B => GOLDEN,
    }
}

/// The position of the default strategy.
pub open spec fn default_pos(content: &Content) -> Option<int> {
    content.strategy_pos(content.default_strategy@)
}

impl AiCommander {
    /// A commander that has not acted yet.
    pub open spec fn fresh(&self, f: Faction, seed: u64, strategy: Option<usize>) -> bool {
        &&& self.faction == f
        &&& self.strategy == strategy
        &&& self.rng@ == stream_start(f, seed)
        &&& self.tick == 0
        &&& self.army_cursor == 0
        &&& self.next_attack_tick == 0
    }

    /// The position of the script it runs on this content.
    pub open spec fn script_pos(&self, content: &Content) -> Option<int> {
        match self.strategy {
            Some(i) => if i < content.strategies@.len() {
                Some(i as int)
            } else {
                None
            },
            None => default_pos(content),
        }
    }

    /// The script it runs.
    pub open spec fn script(&self, content: &Content) -> StrategyDef {
        content.strategies@[self.script_pos(content)->0]
    }

    /// A commander for `faction` that runs the content's default.
    pub fn new(faction: Faction, seed: u64) -> (r: Self)
        ensures
            r.fresh(faction, seed, None),
    {
        AiCommander::with_index(faction, seed, None)
    }

    /// A commander for `faction` running the strategy named `id`, refused if
    /// the content has no such strategy.
    pub fn with_strategy(content: &Content, faction: Faction, seed: u64, id: &str) -> (r: Result<
        Self,
        UnknownStrategy,
    >)
        ensures
            match r {
                Ok(c) => content.strategy_pos(id@) matches Some(i) && c.strategy matches Some(k)
                    && k == i && c.fresh(faction, seed, Some(k)),
                Err(e) => content.strategy_pos(id@) is None && e.id@ == id@ && e.faction == Some(
                    faction,
                ),
            },
    {
        match content.strategy_index(id) {
            Some(i) => Ok(AiCommander::with_index(faction, seed, Some(i))),
            None => Err(UnknownStrategy { id: id.to_owned(), faction: Some(faction) }),
        }
    }

    fn with_index(faction: Faction, seed: u64, strategy: Option<usize>) -> (r: Self)
        ensures
            r.fresh(faction, seed, strategy),
    {
        let slot: u64 = faction_slot(faction) as u64;
        let salt: u64 = slot.wrapping_mul(GOLDEN);
        proof {
            assert(0 * GOLDEN == 0);
            assert(1 * GOLDEN == GOLDEN);
        }
        AiCommander {
            faction,
            strategy,
            rng: SplitMix64::new(seed ^ salt),
            tick: 0,
            army_cursor: 0,
            next_attack_tick: 0,
        }
    }

    /// The index of the strategy it was named with.
    pub fn strategy_index(&self) -> (r: Option<usize>)
        ensures
            r == self.strategy,
    {
        self.strategy
    }

    /// The script it runs, resolved against the content it plays on.
    pub fn strategy<'a>(&self, content: &'a Content) -> (r: &'a StrategyDef)
        requires
            self.script_pos(content) is Some,
        ensures
            *r == self.script(content),
    {
        match self.strategy {
            Some(i) => &content.strategies[i],
            None => match content.strategy_index(content.default_strategy.as_str()) {
                Some(i) => &content.strategies[i],
                None => &content.strategies[0],
            },
        }
    }

    pub fn tick(&self) -> (r: u32)
        ensures
            r == self.tick,
    {
        self.tick
    }

    /// This commander's generator state.
    pub fn rng_state(&self) -> (r: u64)
        ensures
            r == self.rng@,
    {
        self.rng.state()
    }
}

/// The scripted commanders on the field, in the order they act in.
#[derive(Debug)]
pub struct AiCommanders(pub Vec<AiCommander>);

impl Default for AiCommanders {
    fn default() -> (r: Self)
        ensures
            r.0@.len() == 0,
    {
        AiCommanders(Vec::new())
    }
}

/// Where `f` is first named, from place `k` on.
pub open spec fn first_side(sides: Seq<Faction>, f: Faction, k: int) -> Option<int>
    decreases sides.len() - k,
{
    if k < 0 || k >= sides.len() {
        None
    } else if sides[k] == f {
        Some(k)
    } else {
        first_side(sides, f, k + 1)
    }
}

/// The sides that are named, in slot order.
pub open spec fn seated(sides: Seq<Faction>) -> Seq<Faction> {
    (if first_side(sides, Faction::A, 0) is Some {
        seq![Faction::A]
    } else {
        Seq::empty()
    }) + (if first_side(sides, Faction::B, 0) is Some {
        seq![Faction::B]
    } else {
        Seq::empty()
    })
}

fn first_named(sides: &Vec<Faction>, f: Faction) -> (r: Option<usize>)
    ensures
        r is Some == first_side(sides@, f, 0) is Some,
        r matches Some(i) ==> first_side(sides@, f, 0) == Some(i as int) && i < sides@.len()
            && sides@[i as int] == f,
{
    let mut k: usize = 0;
    while k < sides.len()
        invariant
            k <= sides@.len(),
            first_side(sides@, f, 0) == first_side(sides@, f, k as int),
        decreases sides@.len() - k,
    {
        if sides[k] == f {
            return Some(k);
        }
        k = k + 1;
    }
    None
}

/// The sides of a matchup.
pub open spec fn sides_of(sides: Seq<(Faction, &str)>) -> Seq<Faction> {
    sides.map_values(|s: (Faction, &str)| s.0)
}

/// The first side of a matchup, from place `k` on, whose strategy is unknown.
pub open spec fn first_unknown(content: &Content, sides: Seq<(Faction, &str)>, k: int) -> Option<int>
    decreases sides.len() - k,
{
    if k < 0 || k >= sides.len() {
        None
    } else if content.strategy_pos(sides[k].1@) is None {
        Some(k)
    } else {
        first_unknown(content, sides, k + 1)
    }
}

impl AiCommanders {
    /// Commanders for `factions`, one each, all seeded from one match `seed`,
    /// in slot order.
    pub fn new(seed: u64, factions: &[Faction]) -> (r: Self)
        ensures
            r.0@.len() == seated(factions@).len(),
            forall|i: int|
                0 <= i < r.0@.len() ==> (#[trigger] r.0@[i]).fresh(
                    seated(factions@)[i],
                    seed,
                    None,
                ),
    {
        let mut sides: Vec<Faction> = Vec::new();
        let mut k: usize = 0;
        while k < factions.len()
            invariant
                k <= factions@.len(),
                sides@ == factions@.take(k as int),
            decreases factions@.len() - k,
        {
            sides.push(factions[k]);
            assert(sides@ =~= factions@.take(k + 1));
            k = k + 1;
        }
        assert(sides@ =~= factions@);
        let mut out: Vec<AiCommander> = Vec::new();
        if first_named(&sides, Faction::A).is_some() {
            out.push(AiCommander::new(Faction::A, seed));
        }
        if first_named(&sides, Faction::B).is_some() {
            out.push(AiCommander::new(Faction::B, seed));
        }
        AiCommanders(out)
    }

    /// The commanders of one match: a named strategy per side, one commander per
    /// faction, in slot order. The first strategy that is unknown refuses the
    /// match; a faction that is named twice runs the first.
    pub fn matchup(content: &Content, seed: u64, sides: &[(Faction, &str)]) -> (r: Result<
        Self,
        UnknownStrategy,
    >)
        ensures
            match r {
                Ok(cs) => {
                    &&& first_unknown(content, sides@, 0) is None
                    &&& cs.0@.len() == seated(sides_of(sides@)).len()
                    &&& forall|i: int|
                        0 <= i < cs.0@.len() ==> {
                            let f = seated(sides_of(sides@))[i];
                            let j = first_side(sides_of(sides@), f, 0)->0;
                            let c = #[trigger] cs.0@[i];
                            &&& c.strategy is Some
                            &&& c.fresh(f, seed, c.strategy)
                            &&& content.strategy_pos(sides@[j].1@) == Some(c.strategy->0 as int)
                        }
                },
                Err(e) => first_unknown(content, sides@, 0) matches Some(k) && e.id@
                    == sides@[k].1@ && e.faction == Some(sides@[k].0),
            },
    {
        let mut named: Vec<Faction> = Vec::new();
        let mut all: Vec<AiCommander> = Vec::new();
        let mut k: usize = 0;
        while k < sides.len()
            invariant
                k <= sides@.len(),
                named@ == sides_of(sides@).take(k as int),
                all@.len() == k,
                first_unknown(content, sides@, 0) == first_unknown(content, sides@, k as int),
                forall|i: int|
                    0 <= i < k ==> {
                        let c = #[trigger] all@[i];
                        &&& c.strategy is Some
                        &&& c.fresh(sides@[i].0, seed, c.strategy)
                        &&& content.strategy_pos(sides@[i].1@) == Some(c.strategy->0 as int)
                    },
            decreases sides@.len() - k,
        {
            let (f, id) = sides[k];
            match AiCommander::with_strategy(content, f, seed, id) {
                Ok(c) => {
                    all.push(c);
                    named.push(f);
                    assert(named@ =~= sides_of(sides@).take(k + 1));
                },
                Err(e) => {
                    return Err(e);
                },
            }
            k = k + 1;
        }
        assert(named@ =~= sides_of(sides@));
        let mut out: Vec<AiCommander> = Vec::new();
        match first_named(&named, Faction::A) {
            Some(i) => {
                out.push(all[i]);
            },
            None => {},
        }
        match first_named(&named, Faction::B) {
            Some(i) => {
                out.push(all[i]);
            },
            None => {},
        }
        Ok(AiCommanders(out))
    }

    pub fn commanders(&self) -> (r: &Vec<AiCommander>)
        ensures
            *r == self.0,
    {
        &self.0
    }
}

// ---- laws -------------------------------------------------------------------

/// One seed, one opening: a side's generator starts where the seed and the side
/// say, whichever strategy it runs, and two sides never share a start.
pub proof fn seeding_ignores_the_strategy(a: AiCommander, b: AiCommander, seed: u64)
    requires
        a.fresh(a.faction, seed, a.strategy),
        b.fresh(b.faction, seed, b.strategy),
    ensures
        a.rng@ == b.rng@ <==> a.faction == b.faction,
{
    assert(seed ^ 0u64 != seed ^ GOLDEN) by (bit_vector);
}

proof fn lemma_first_side(sides: Seq<Faction>, f: Faction, k: int)
    requires
        0 <= k <= sides.len(),
        forall|i: int| 0 <= i < k ==> #[trigger] sides[i] != f,
    ensures
        match first_side(sides, f, k) {
            Some(i) => 0 <= i < sides.len() && sides[i] == f && forall|j: int|
                0 <= j < i ==> #[trigger] sides[j] != f,
            None => forall|i: int| 0 <= i < sides.len() ==> #[trigger] sides[i] != f,
        },
    decreases sides.len() - k,
{
    if k < sides.len() && sides[k] != f {
        lemma_first_side(sides, f, k + 1);
    }
}

/// Every side that is named has one commander, and no other side has: `A`'s
/// stands before `B`'s.
pub proof fn each_named_side_is_seated_once(sides: Seq<Faction>, f: Faction)
    ensures
        seated(sides).contains(f) <==> sides.contains(f),
        seated(sides).no_duplicates(),
        forall|i: int, j: int|
            0 <= i < j < seated(sides).len() ==> (#[trigger] seated(sides)[i]).slot() < (
            #[trigger] seated(sides)[j]).slot(),
{
    let (a, b) = (Faction::A, Faction::B);
    lemma_first_side(sides, a, 0);
    lemma_first_side(sides, b, 0);
    let all = seated(sides);
    if first_side(sides, a, 0) is Some {
        assert(all[0] == a);
    }
    if first_side(sides, b, 0) is Some {
        assert(all[all.len() - 1] == b);
    }
}

/// Of two strategies for one side the first counts, and a matchup is refused for
/// the first name that no strategy goes by.
pub proof fn the_first_name_counts(content: &Content, sides: Seq<(Faction, &str)>, f: Faction)
    ensures
        match first_side(sides_of(sides), f, 0) {
            Some(i) => 0 <= i < sides.len() && sides[i].0 == f && forall|j: int|
                0 <= j < i ==> (#[trigger] sides[j]).0 != f,
            None => forall|j: int| 0 <= j < sides.len() ==> (#[trigger] sides[j]).0 != f,
        },
        match first_unknown(content, sides, 0) {
            Some(k) => 0 <= k < sides.len() && no_strategy(content, sides[k].1@) && forall|j: int|
                0 <= j < k ==> !no_strategy(content, (#[trigger] sides[j]).1@),
            None => forall|j: int|
                0 <= j < sides.len() ==> !no_strategy(content, (#[trigger] sides[j]).1@),
        },
{
    let all = sides_of(sides);
    lemma_first_side(all, f, 0);
    assert forall|j: int| 0 <= j < sides.len() implies all[j] == (#[trigger] sides[j]).0 by {}
    lemma_first_unknown(content, sides, 0);
}

/// No strategy goes by `id`.
pub open spec fn no_strategy(content: &Content, id: Seq<char>) -> bool {
    forall|i: int|
        0 <= i < content.strategies@.len() ==> (#[trigger] content.strategies@[i]).id@ != id
}

proof fn lemma_no_strategy(content: &Content, id: Seq<char>)
    ensures
        content.strategy_pos(id) is None <==> no_strategy(content, id),
{
    let ids = lookup::strategy_ids(content.strategies@);
    lookup::lemma_first_at(ids, id, 0);
    assert forall|i: int| 0 <= i < ids.len() implies ids[i] == (
    #[trigger] content.strategies@[i]).id@ by {}
    match content.strategy_pos(id) {
        Some(i) => {
            assert(content.strategies@[i].id@ == id);
        },
        None => {
            assert forall|i: int| 0 <= i < content.strategies@.len() implies (
            #[trigger] content.strategies@[i]).id@ != id by {
                assert(ids[i] != id);
            }
        },
    }
}

proof fn lemma_first_unknown(content: &Content, sides: Seq<(Faction, &str)>, k: int)
    requires
        0 <= k <= sides.len(),
        forall|j: int| 0 <= j < k ==> !no_strategy(content, (#[trigger] sides[j]).1@),
    ensures
        match first_unknown(content, sides, k) {
            Some(q) => 0 <= q < sides.len() && no_strategy(content, sides[q].1@) && forall|j: int|
                0 <= j < q ==> !no_strategy(content, (#[trigger] sides[j]).1@),
            None => forall|j: int|
                0 <= j < sides.len() ==> !no_strategy(content, (#[trigger] sides[j]).1@),
        },
    decreases sides.len() - k,
{
    if k < sides.len() {
        lemma_no_strategy(content, sides[k].1@);
        if content.strategy_pos(sides[k].1@) is Some {
            lemma_first_unknown(content, sides, k + 1);
        }
    }
}

/// What a side did is what the journal enters for it, with the ticks, in order.
pub proof fn a_side_finds_its_own_actions(all: Seq<(u32, Faction, AiAction)>, f: Faction, k: int)
    requires
        0 <= k <= all.len(),
    ensures
        actions_of(all, f, k) == all.take(k).filter(
            |e: (u32, Faction, AiAction)| e.1 == f,
        ).map_values(|e: (u32, Faction, AiAction)| (e.0, e.2)),
    decreases k,
{
    reveal(Seq::filter);
    let p = |e: (u32, Faction, AiAction)| e.1 == f;
    let g = |e: (u32, Faction, AiAction)| (e.0, e.2);
    if k > 0 {
        a_side_finds_its_own_actions(all, f, k - 1);
        assert(all.take(k).drop_last() =~= all.take(k - 1));
        let before = all.take(k - 1).filter(p);
        if all[k - 1].1 == f {
            assert(all.take(k).filter(p) == before.push(all[k - 1]));
            assert(all.take(k).filter(p).map_values(g) =~= before.map_values(g).push(
                (all[k - 1].0, all[k - 1].2),
            ));
        } else {
            assert(all.take(k).filter(p) == before);
        }
    } else {
        assert(actions_of(all, f, k) =~= all.take(k).filter(p).map_values(g));
    }
}

} // verus!
