//! The balance batch: every ordered matchup across a number of seeds.
//!
//! A cap is not a draw: a match whose two headquarters fell on one tick was
//! decided, one that ran into the tick cap was not. Every matchup is played in
//! both orientations on the same seed, so an edge of the ground lands once on
//! each side. The order of play is seed-major, then the order of the content,
//! then orientation.

use vstd::arithmetic::power2;
use vstd::arithmetic::power2::pow2;
use vstd::prelude::*;

use crate::counting;
use crate::float;
use crate::float::F32;
use crate::headless;
use crate::headless::{Orientation, DEFAULT_TICK_CAP, SIM_HZ};
use crate::ratio;
use crate::sim::ai::UnknownStrategy;
use crate::sim::content::lookup;
use crate::sim::content::Content;
use crate::sim::spatial;
use crate::sim::spatial::{faction_slot, finalize, Faction, GOLDEN};
use crate::sim::victory::MatchOutcome;
use crate::text;

verus! {

/// How one match ended.
#[derive(Clone, Copy, Debug, PartialEq, Eq, Structural)]
pub enum MatchResult {
    /// One side's headquarters was destroyed; the named faction survived.
    Decided(Faction),
    /// Both headquarters fell on the same tick.
    MutualLoss,
    /// The tick cap was hit with the match still undecided.
    Timeout,
}

impl MatchResult {
    /// The winner, if there is one.
    pub open spec fn won_by(self) -> Option<Faction> {
        match self {
            MatchResult::Decided(f) => Some(f),
            _ => None,
        }
    }

    /// The winner, if there is one: neither a mutual loss nor a timeout has one.
    pub fn winner(self) -> (r: Option<Faction>)
        ensures
            r == self.won_by(),
    {
        match self {
            MatchResult::Decided(f) => Some(f),
            _ => None,
        }
    }

    /// Did the sim end this match? True for a mutual loss, false for a timeout.
    pub fn is_decided(self) -> (r: bool)
        ensures
            r == (self !is Timeout),
    {
        match self {
            MatchResult::Timeout => false,
            _ => true,
        }
    }
}

/// One played match.
#[derive(Clone, Debug)]
pub struct MatchRecord {
    /// Who played, by slot.
    pub strategies: [String; 2],
    /// The seed this match was played on.
    pub seed: u64,
    pub result: MatchResult,
    /// Which orientation this match was played in.
    pub orientation: Orientation,
    /// Ticks actually played.
    pub ticks: u32,
}

impl MatchRecord {
    /// Did the winner hold the left-hand base?
    pub open spec fn left_won(&self) -> Option<bool> {
        match self.result.won_by() {
            Some(f) => Some(f == self.orientation.at_left()),
            None => None,
        }
    }

    pub fn winner(&self) -> (r: Option<Faction>)
        ensures
            r == self.result.won_by(),
    {
        self.result.winner()
    }

    /// Did the winner hold the left-hand base? `None` if nobody won.
    pub fn winner_at_left(&self) -> (r: Option<bool>)
        ensures
            r == self.left_won(),
    {
        match self.winner() {
            Some(f) => Some(f == self.orientation.left()),
            None => None,
        }
    }
}

impl MatchRecord {
    /// The match length in seconds of play, at the sim's fixed rate.
    pub fn seconds(&self) -> (r: F32)
        ensures
            r.bits == ratio::quotient32(self.ticks as nat, SIM_HZ as nat),
    {
        ratio::divide32(self.ticks as u64, SIM_HZ as u64)
    }
}

/// What a record says, as a mathematical value.
pub struct Told {
    pub a: Seq<char>,
    pub b: Seq<char>,
    pub seed: u64,
    pub result: MatchResult,
    pub orientation: Orientation,
    pub ticks: u32,
}

impl View for MatchRecord {
    type V = Told;

    open spec fn view(&self) -> Told {
        Told {
            a: self.strategies@[0]@,
            b: self.strategies@[1]@,
            seed: self.seed,
            result: self.result,
            orientation: self.orientation,
            ticks: self.ticks,
        }
    }
}

/// What a batch says, record by record.
pub open spec fn told(records: Seq<MatchRecord>) -> Seq<Told> {
    records.map_values(|r: MatchRecord| r@)
}

/// The mirrors of a batch, in order: one script on both sides, so that a split
/// away from one half is a bias of spawn or turn order.
pub fn mirrors(records: &[MatchRecord]) -> (r: Vec<MatchRecord>)
    ensures
        told(r@) == told(records@).filter(|t: Told| t.a == t.b),
{
    let ghost mirror = |t: Told| t.a == t.b;
    let ghost all = told(records@);
    let mut r: Vec<MatchRecord> = Vec::new();
    let mut i: usize = 0;
    proof {
        reveal(Seq::filter);
        assert(told(r@) =~= all.take(0).filter(mirror));
    }
    while i < records.len()
        invariant
            i <= records@.len(),
            all == told(records@),
            mirror == (|t: Told| t.a == t.b),
            told(r@) == all.take(i as int).filter(mirror),
        decreases records@.len() - i,
    {
        let m: &MatchRecord = &records[i];
        proof {
            reveal(Seq::filter);
            assert(all.take(i + 1).drop_last() =~= all.take(i as int));
            assert(all.take(i + 1).last() == m@);
        }
        if text::same(m.strategies[0].as_str(), m.strategies[1].as_str()) {
            let ghost before = r@;
            r.push(
                MatchRecord {
                    strategies: [m.strategies[0].clone(), m.strategies[1].clone()],
                    seed: m.seed,
                    result: m.result,
                    orientation: m.orientation,
                    ticks: m.ticks,
                },
            );
            assert(told(r@) =~= told(before).push(m@));
        }
        i = i + 1;
    }
    assert(all.take(i as int) =~= all);
    r
}

/// What to play.
#[derive(Clone, Debug)]
pub struct BatchSettings {
    /// How many seeds every matchup is played on.
    pub seeds: u32,
    /// The base the seeds are derived from.
    pub seed_base: u64,
    /// Tick budget per match.
    pub tick_cap: u32,
    /// Restrict the roster to these strategy ids, in content order. `None`
    /// plays every strategy.
    pub only: Option<Vec<String>>,
}

impl Default for BatchSettings {
    fn default() -> (r: Self)
        ensures
            r == (BatchSettings {
                seeds: 1,
                seed_base: 0,
                tick_cap: DEFAULT_TICK_CAP,
                only: None,
            }),
    {
        BatchSettings { seeds: 1, seed_base: 0, tick_cap: DEFAULT_TICK_CAP, only: None }
    }
}

impl BatchSettings {
    pub fn with_seeds(self, seeds: u32) -> (r: Self)
        ensures
            r == (BatchSettings { seeds, ..self }),
    {
        BatchSettings { seeds, ..self }
    }

    pub fn with_seed_base(self, base: u64) -> (r: Self)
        ensures
            r == (BatchSettings { seed_base: base, ..self }),
    {
        BatchSettings { seed_base: base, ..self }
    }

    pub fn with_tick_cap(self, cap: u32) -> (r: Self)
        ensures
            r == (BatchSettings { tick_cap: cap, ..self }),
    {
        BatchSettings { tick_cap: cap, ..self }
    }

    pub fn with_only(self, only: Vec<String>) -> (r: Self)
        ensures
            r == (BatchSettings { only: Some(only), ..self }),
    {
        BatchSettings { only: Some(only), ..self }
    }
}

// ---- seeds ------------------------------------------------------------------

/// The seed of the `k`-th match of a batch based at `base`.
pub open spec fn seed_of(base: u64, k: nat) -> u64 {
    spatial::mix(spatial::wrap_add(base, spatial::wrap_mul((k + 1) as u64, GOLDEN)))
}

/// The seed of the `k`-th match of a batch based at `base`: a mixed word, so
/// that neighbouring matches do not run on neighbouring streams.
pub fn seed_at(base: u64, k: u32) -> (r: u64)
    ensures
        r == seed_of(base, k as nat),
{
    finalize(base.wrapping_add((k as u64 + 1).wrapping_mul(GOLDEN)))
}

// ---- one match --------------------------------------------------------------

/// The watch over one match: how many ticks it has been stepped and how it
/// ended.
#[derive(Clone, Copy, Debug, PartialEq, Eq, Structural)]
pub struct Watch {
    pub ticks: u32,
    pub cap: u32,
    pub result: MatchResult,
}

/// The result that an outcome is.
pub open spec fn result_of(o: MatchOutcome) -> MatchResult {
    match o.winner {
        Some(f) => MatchResult::Decided(f),
        None => MatchResult::MutualLoss,
    }
}

impl Watch {
    /// The watch goes on while nothing is decided and the budget lasts.
    pub open spec fn open_end(&self) -> bool {
        self.result is Timeout && self.ticks < self.cap
    }

    /// Start watching a match with a budget of `cap` ticks.
    pub fn new(cap: u32) -> (r: Self)
        ensures
            r == (Watch { ticks: 0, cap, result: MatchResult::Timeout }),
    {
        Watch { ticks: 0, cap, result: MatchResult::Timeout }
    }

    /// Is another tick to be played?
    pub fn running(&self) -> (r: bool)
        ensures
            r == self.open_end(),
    {
        match self.result {
            MatchResult::Timeout => self.ticks < self.cap,
            _ => false,
        }
    }

    /// One tick was played; `outcome` is what the sim says after it.
    pub fn observe(&mut self, outcome: Option<MatchOutcome>)
        requires
            old(self).open_end(),
        ensures
            final(self).ticks == old(self).ticks + 1,
            final(self).cap == old(self).cap,
            final(self).result == match outcome {
                Some(o) => result_of(o),
                None => MatchResult::Timeout,
            },
    {
        self.ticks = self.ticks + 1;
        match outcome {
            Some(o) => {
                self.result = match o.winner {
                    Some(f) => MatchResult::Decided(f),
                    None => MatchResult::MutualLoss,
                };
            },
            None => {},
        }
    }
}

/// The name a side's result is filed under.
pub open spec fn filed_as(named: Option<String>, default: Seq<char>) -> Seq<char> {
    match named {
        Some(s) => s@,
        None => default,
    }
}

fn name_of(named: &Option<String>, default: &str) -> (r: String)
    ensures
        r@ == filed_as(*named, default@),
{
    match named {
        Some(s) => s.clone(),
        None => default.to_owned(),
    }
}

/// The record of a match that was watched to its end.
pub fn record_of(
    content: &Content,
    strategies: &[Option<String>; 2],
    seed: u64,
    orientation: Orientation,
    watch: &Watch,
) -> (r: MatchRecord)
    ensures
        r.strategies@[0]@ == filed_as(strategies@[0], content.default_strategy@),
        r.strategies@[1]@ == filed_as(strategies@[1], content.default_strategy@),
        r.seed == seed,
        r.orientation == orientation,
        r.result == watch.result,
        r.ticks == watch.ticks,
{
    let default: &str = content.default_strategy.as_str();
    MatchRecord {
        strategies: [name_of(&strategies[0], default), name_of(&strategies[1], default)],
        seed,
        result: watch.result,
        orientation,
        ticks: watch.ticks,
    }
}

// ---- the roster and the order of play -----------------------------------------

/// The ids that stand in `only`, in their own order.
pub open spec fn chosen(ids: Seq<Seq<char>>, only: Seq<String>) -> Seq<Seq<char>>
    decreases ids.len(),
{
    if ids.len() == 0 {
        Seq::empty()
    } else {
        let before = chosen(ids.drop_last(), only);
        if lookup::listed(only, ids.last()) {
            before.push(ids.last())
        } else {
            before
        }
    }
}

/// The first id of `only` from `k` on that no strategy has.
pub open spec fn first_unknown(content: &Content, only: Seq<String>, k: int) -> Option<Seq<char>>
    decreases only.len() - k,
{
    if k < 0 || k >= only.len() {
        None
    } else if content.strategy_pos(only[k]@) is None {
        Some(only[k]@)
    } else {
        first_unknown(content, only, k + 1)
    }
}

/// The strategy ids a batch plays, in content order. `only` is a filter, not an
/// order; an id that no strategy has is refused.
pub fn roster(content: &Content, only: Option<&Vec<String>>) -> (r: Result<
    Vec<String>,
    UnknownStrategy,
>)
    ensures
        only is None ==> r is Ok && text::views(r->Ok_0@) == lookup::strategy_ids(
            content.strategies@,
        ),
        only matches Some(o) ==> match first_unknown(content, o@, 0) {
            Some(id) => r matches Err(e) && e.id@ == id && e.faction is None,
            None => r is Ok && text::views(r->Ok_0@) == chosen(
                lookup::strategy_ids(content.strategies@),
                o@,
            ),
        },
{
    match only {
        None => Ok(content.strategy_id_list()),
        Some(only) => {
            match unknown_in(content, only) {
                Some(id) => Err(UnknownStrategy { id, faction: None }),
                None => Ok(filtered(content, only)),
            }
        },
    }
}

fn unknown_in(content: &Content, only: &Vec<String>) -> (r: Option<String>)
    ensures
        match first_unknown(content, only@, 0) {
            Some(id) => r matches Some(s) && s@ == id,
            None => r is None,
        },
{
    let mut k: usize = 0;
    while k < only.len()
        invariant
            k <= only@.len(),
            first_unknown(content, only@, 0) == first_unknown(content, only@, k as int),
        decreases only@.len() - k,
    {
        if content.strategy_index(only[k].as_str()).is_none() {
            return Some(only[k].clone());
        }
        k = k + 1;
    }
    None
}

fn filtered(content: &Content, only: &Vec<String>) -> (r: Vec<String>)
    ensures
        text::views(r@) == chosen(lookup::strategy_ids(content.strategies@), only@),
{
    let ghost ids = lookup::strategy_ids(content.strategies@);
    let mut r: Vec<String> = Vec::new();
    let mut k: usize = 0;
    while k < content.strategies.len()
        invariant
            k <= content.strategies@.len(),
            ids == lookup::strategy_ids(content.strategies@),
            text::views(r@) == chosen(ids.take(k as int), only@),
        decreases content.strategies@.len() - k,
    {
        assert(ids.take(k + 1).drop_last() =~= ids.take(k as int));
        let id: &String = &content.strategies[k].id;
        if lookup::lists(only, id.as_str()) {
            let ghost before = r@;
            r.push(id.clone());
            assert(text::views(r@) =~= text::views(before).push(id@));
        }
        k = k + 1;
    }
    assert(ids.take(k as int) =~= ids);
    r
}

/// One match of a batch: which strategies meet, on which seed, in which
/// orientation.
#[derive(Clone, Debug)]
pub struct Fixture {
    pub a: String,
    pub b: String,
    pub seed: u64,
    pub orientation: Orientation,
}

/// The matches of a batch with `n` strategies and `seeds` seeds.
pub open spec fn batch_size(n: int, seeds: int) -> int {
    seeds * n * n * 2
}

/// What the match at position `i` of a batch over `ids` is: the orientation
/// changes fastest, then the column, then the row, then the seed.
pub open spec fn is_fixture(f: Fixture, ids: Seq<Seq<char>>, base: u64, i: int) -> bool {
    let n = ids.len() as int;
    &&& f.orientation == if i % 2 == 0 {
        Orientation::Normal
    } else {
        Orientation::Swapped
    }
    &&& f.b@ == ids[(i / 2) % n]
    &&& f.a@ == ids[(i / 2 / n) % n]
    &&& f.seed == seed_of(base, (i / 2 / n / n) as nat)
}

proof fn lemma_place(k: int, a: int, b: int, o: int, n: int)
    requires
        0 <= k,
        0 <= a < n,
        0 <= b < n,
        0 <= o < 2,
    ensures
        ({
            let i = ((k * n + a) * n + b) * 2 + o;
            &&& i % 2 == o
            &&& (i / 2) % n == b
            &&& (i / 2 / n) % n == a
            &&& i / 2 / n / n == k
        }),
{
    let i = ((k * n + a) * n + b) * 2 + o;
    assert(i / 2 == (k * n + a) * n + b && i % 2 == o);
    vstd::arithmetic::div_mod::lemma_fundamental_div_mod_converse(i / 2, n, k * n + a, b);
    vstd::arithmetic::div_mod::lemma_fundamental_div_mod_converse(k * n + a, n, k, a);
}

/// Every ordered matchup (mirrors included) of the roster in both orientations,
/// on each seed: the order in which a batch is played and reported.
pub fn fixtures(roster: &Vec<String>, settings: &BatchSettings) -> (r: Vec<Fixture>)
    requires
        batch_size(roster@.len() as int, settings.seeds as int) <= usize::MAX,
    ensures
        r@.len() == batch_size(roster@.len() as int, settings.seeds as int),
        forall|i: int|
            0 <= i < r@.len() ==> is_fixture(
                #[trigger] r@[i],
                text::views(roster@),
                settings.seed_base,
                i,
            ),
{
    let ghost ids = text::views(roster@);
    let ghost n = roster@.len() as int;
    let mut r: Vec<Fixture> = Vec::new();
    let mut k: u32 = 0;
    assert((0 * n) * n * 2 == 0);
    while k < settings.seeds
        invariant
            k <= settings.seeds,
            ids == text::views(roster@),
            n == roster@.len(),
            r@.len() == (k * n) * n * 2,
            forall|i: int|
                0 <= i < r@.len() ==> is_fixture(#[trigger] r@[i], ids, settings.seed_base, i),
        decreases settings.seeds - k,
    {
        let seed: u64 = seed_at(settings.seed_base, k);
        let mut a: usize = 0;
        while a < roster.len()
            invariant
                a <= roster@.len(),
                ids == text::views(roster@),
                n == roster@.len(),
                seed == seed_of(settings.seed_base, k as nat),
                r@.len() == (k * n + a) * n * 2,
                forall|i: int|
                    0 <= i < r@.len() ==> is_fixture(#[trigger] r@[i], ids, settings.seed_base, i),
            decreases roster@.len() - a,
        {
            let mut b: usize = 0;
            while b < roster.len()
                invariant
                    a < roster@.len(),
                    b <= roster@.len(),
                    ids == text::views(roster@),
                    n == roster@.len(),
                    seed == seed_of(settings.seed_base, k as nat),
                    r@.len() == ((k * n + a) * n + b) * 2,
                    forall|i: int|
                        0 <= i < r@.len() ==> is_fixture(
                            #[trigger] r@[i],
                            ids,
                            settings.seed_base,
                            i,
                        ),
                decreases roster@.len() - b,
            {
                proof {
                    lemma_place(k as int, a as int, b as int, 0, n);
                    lemma_place(k as int, a as int, b as int, 1, n);
                }
                r.push(
                    Fixture {
                        a: roster[a].clone(),
                        b: roster[b].clone(),
                        seed,
                        orientation: Orientation::Normal,
                    },
                );
                r.push(
                    Fixture {
                        a: roster[a].clone(),
                        b: roster[b].clone(),
                        seed,
                        orientation: Orientation::Swapped,
                    },
                );
                b = b + 1;
            }
            proof {
                assert((k * n + a + 1) * n == (k * n + a) * n + n) by (nonlinear_arith);
            }
            a = a + 1;
        }
        proof {
            assert((k + 1) * n == k * n + n) by (nonlinear_arith);
        }
        k = k + 1;
    }
    proof {
        let s = settings.seeds as int;
        assert((s * n) * n * 2 == batch_size(n, s));
    }
    r
}

// ---- the tally --------------------------------------------------------------

/// The human summary of a batch: how matches ended and how long they ran.
#[derive(Clone, Debug)]
pub struct Tally {
    pub total: usize,
    /// Matches one side won.
    pub decided: usize,
    /// Draws the sim reached.
    pub mutual_losses: usize,
    /// Matches that hit the cap undecided.
    pub timeouts: usize,
    pub wins: [usize; 2],
    /// Wins by spawn position: the left-hand base, then the right-hand one.
    pub spawn_wins: [usize; 2],
    /// The same counts split by orientation.
    pub by_orientation: [SplitTally; 2],
    /// Ticks played, ascending.
    pub lengths: Vec<u32>,
}

/// One orientation's slice of a [`Tally`].
#[derive(Clone, Copy, Debug)]
pub struct SplitTally {
    pub total: usize,
    pub decided: usize,
    pub mutual_losses: usize,
    pub timeouts: usize,
    pub wins: [usize; 2],
}

/// A record that ended in `result`, in `within` if that is given.
pub open spec fn ended(result: MatchResult, within: Option<Orientation>) -> spec_fn(
    MatchRecord,
) -> bool {
    |r: MatchRecord| r.result == result && (within is Some ==> r.orientation == within->0)
}

/// A record that somebody won.
pub open spec fn won(within: Option<Orientation>) -> spec_fn(MatchRecord) -> bool {
    |r: MatchRecord| r.result is Decided && (within is Some ==> r.orientation == within->0)
}

/// A record of one orientation.
pub open spec fn played_in(within: Option<Orientation>) -> spec_fn(MatchRecord) -> bool {
    |r: MatchRecord| within is Some ==> r.orientation == within->0
}

/// A record won from the left-hand base, or not from it.
pub open spec fn won_at_left(left: bool) -> spec_fn(MatchRecord) -> bool {
    |r: MatchRecord| r.left_won() == Some(left)
}

impl SplitTally {
    /// The counts of the records of one orientation.
    pub open spec fn counts(&self, records: Seq<MatchRecord>, o: Orientation) -> bool {
        &&& self.total == counting::count(records, played_in(Some(o)))
        &&& self.decided == counting::count(records, won(Some(o)))
        &&& self.mutual_losses == counting::count(
            records,
            ended(MatchResult::MutualLoss, Some(o)),
        )
        &&& self.timeouts == counting::count(records, ended(MatchResult::Timeout, Some(o)))
        &&& self.wins@[0] == counting::count(
            records,
            ended(MatchResult::Decided(Faction::A), Some(o)),
        )
        &&& self.wins@[1] == counting::count(
            records,
            ended(MatchResult::Decided(Faction::B), Some(o)),
        )
    }
}

/// Put `x` into an ascending list, behind those that are not larger.
fn insert_sorted(list: &mut Vec<u32>, x: u32)
    requires
        forall|i: int, j: int| 0 <= i < j < old(list)@.len() ==> old(list)@[i] <= old(list)@[j],
        old(list)@.len() < usize::MAX,
    ensures
        forall|i: int, j: int|
            0 <= i < j < final(list)@.len() ==> final(list)@[i] <= final(list)@[j],
        final(list)@.to_multiset() == old(list)@.to_multiset().insert(x),
        final(list)@.len() == old(list)@.len() + 1,
{
    let mut k: usize = list.len();
    while k > 0 && list[k - 1] > x
        invariant
            k <= list@.len(),
            forall|i: int| k <= i < list@.len() ==> list@[i] > x,
        decreases k,
    {
        k = k - 1;
    }
    let ghost before = list@;
    list.insert(k, x);
    proof {
        broadcast use vstd::multiset::group_multiset_axioms;

        vstd::seq_lib::to_multiset_insert(before, k as int, x);
    }
}

impl Tally {
    /// The counts of a batch.
    pub open spec fn counts(&self, records: Seq<MatchRecord>) -> bool {
        &&& self.total == records.len()
        &&& self.decided == counting::count(records, won(None))
        &&& self.mutual_losses == counting::count(records, ended(MatchResult::MutualLoss, None))
        &&& self.timeouts == counting::count(records, ended(MatchResult::Timeout, None))
        &&& self.wins@[0] == counting::count(
            records,
            ended(MatchResult::Decided(Faction::A), None),
        )
        &&& self.wins@[1] == counting::count(
            records,
            ended(MatchResult::Decided(Faction::B), None),
        )
        &&& self.spawn_wins@[0] == counting::count(records, won_at_left(true))
        &&& self.spawn_wins@[1] == counting::count(records, won_at_left(false))
        &&& self.by_orientation@[0].counts(records, Orientation::Normal)
        &&& self.by_orientation@[1].counts(records, Orientation::Swapped)
    }

    /// The summary of a batch.
    pub fn of(records: &[MatchRecord]) -> (r: Self)
        ensures
            r.counts(records@),
            r.lists_lengths(records@),
    {
        let mut total: usize = 0;
        let mut decided: usize = 0;
        let mut mutual_losses: usize = 0;
        let mut timeouts: usize = 0;
        let mut wins: [usize; 2] = [0, 0];
        let mut spawn_wins: [usize; 2] = [0, 0];
        let mut normal = SplitTally {
            total: 0,
            decided: 0,
            mutual_losses: 0,
            timeouts: 0,
            wins: [0, 0],
        };
        let mut swapped = SplitTally {
            total: 0,
            decided: 0,
            mutual_losses: 0,
            timeouts: 0,
            wins: [0, 0],
        };
        let mut lengths: Vec<u32> = Vec::new();
        let ghost ticks = |r: MatchRecord| r.ticks;
        let mut i: usize = 0;
        assert(records@.take(0).map_values(ticks) =~= lengths@);
        while i < records.len()
            invariant
                i <= records@.len(),
                total == i,
                ticks == (|r: MatchRecord| r.ticks),
                decided == counting::count(records@.take(i as int), won(None)),
                mutual_losses == counting::count(
                    records@.take(i as int),
                    ended(MatchResult::MutualLoss, None),
                ),
                timeouts == counting::count(
                    records@.take(i as int),
                    ended(MatchResult::Timeout, None),
                ),
                wins@[0] == counting::count(
                    records@.take(i as int),
                    ended(MatchResult::Decided(Faction::A), None),
                ),
                wins@[1] == counting::count(
                    records@.take(i as int),
                    ended(MatchResult::Decided(Faction::B), None),
                ),
                spawn_wins@[0] == counting::count(records@.take(i as int), won_at_left(true)),
                spawn_wins@[1] == counting::count(records@.take(i as int), won_at_left(false)),
                normal.counts(records@.take(i as int), Orientation::Normal),
                swapped.counts(records@.take(i as int), Orientation::Swapped),
                lengths@.len() == i,
                lengths@.to_multiset() == records@.take(i as int).map_values(ticks).to_multiset(),
                forall|a: int, b: int| 0 <= a < b < lengths@.len() ==> lengths@[a] <= lengths@[b],
            decreases records@.len() - i,
        {
            let r: &MatchRecord = &records[i];
            proof {
                lemma_counts_bounded(records@, i as int);
                lemma_counts_next(records@, i as int);
                assert(records@.take(i + 1).map_values(ticks) =~= records@.take(
                    i as int,
                ).map_values(ticks).push(r.ticks));
                vstd::seq_lib::to_multiset_build(
                    records@.take(i as int).map_values(ticks),
                    r.ticks,
                );
            }
            match r.result {
                MatchResult::Decided(f) => {
                    decided = decided + 1;
                    let k: usize = faction_slot(f);
                    wins[k] = wins[k] + 1;
                },
                MatchResult::MutualLoss => {
                    mutual_losses = mutual_losses + 1;
                },
                MatchResult::Timeout => {
                    timeouts = timeouts + 1;
                },
            }
            match r.winner_at_left() {
                Some(left) => {
                    if left {
                        spawn_wins[0] = spawn_wins[0] + 1;
                    } else {
                        spawn_wins[1] = spawn_wins[1] + 1;
                    }
                },
                None => {},
            }
            match r.orientation {
                Orientation::Normal => normal.add(r),
                Orientation::Swapped => swapped.add(r),
            }
            insert_sorted(&mut lengths, r.ticks);
            total = total + 1;
            i = i + 1;
        }
        assert(records@.take(i as int) =~= records@);
        Tally {
            total,
            decided,
            mutual_losses,
            timeouts,
            wins,
            spawn_wins,
            by_orientation: [normal, swapped],
            lengths,
        }
    }

    /// The share of won matches won from the left-hand base, or `None` if none
    /// was won: the quotient of the two counts as binary32 numbers.
    pub fn left_spawn_rate(&self) -> (r: Option<F32>)
        requires
            self.spawn_wins@[0] + self.spawn_wins@[1] <= usize::MAX,
        ensures
            r is Some == (self.spawn_wins@[0] + self.spawn_wins@[1] > 0),
            r matches Some(f) ==> f.bits == ratio::quotient32(
                self.spawn_wins@[0] as nat,
                (self.spawn_wins@[0] + self.spawn_wins@[1]) as nat,
            ),
    {
        let n: usize = self.spawn_wins[0] + self.spawn_wins[1];
        if n > 0 {
            Some(ratio::divide32(self.spawn_wins[0] as u64, n as u64))
        } else {
            None
        }
    }

    /// The share of won matches won by side A, or `None` if none was won: the
    /// quotient of the two counts as binary32 numbers.
    pub fn slot_a_rate(&self) -> (r: Option<F32>)
        requires
            self.wins@[0] + self.wins@[1] <= usize::MAX,
        ensures
            r is Some == (self.wins@[0] + self.wins@[1] > 0),
            r matches Some(f) ==> f.bits == ratio::quotient32(
                self.wins@[0] as nat,
                (self.wins@[0] + self.wins@[1]) as nat,
            ),
    {
        let n: usize = self.wins[0] + self.wins[1];
        if n > 0 {
            Some(ratio::divide32(self.wins[0] as u64, n as u64))
        } else {
            None
        }
    }

    /// The share of matches that ran into the cap, the quotient of the two
    /// counts as binary32 numbers: zero for an empty batch.
    pub fn timeout_rate(&self) -> (r: F32)
        ensures
            r.bits == if self.total == 0 {
                0
            } else {
                ratio::quotient32(self.timeouts as nat, self.total as nat)
            },
    {
        if self.total == 0 {
            F32 { bits: 0 }
        } else {
            ratio::divide32(self.timeouts as u64, self.total as u64)
        }
    }

    /// The `q`-quantile of match length, by nearest rank: the shortest length
    /// that at least a `q` fraction of the batch does not exceed. A length that
    /// some match had; `None` for an empty batch.
    pub fn length_quantile(&self, q: F32) -> (r: Option<u32>)
        ensures
            r is Some == (self.lengths@.len() > 0),
            r matches Some(t) ==> t == self.lengths@[quantile_rank(q, self.lengths@.len()) - 1],
    {
        let n: usize = self.lengths.len();
        if n == 0 {
            return None;
        }
        let rank: usize = float::part_of(q, n);
        let k: usize = if rank < 1 {
            1
        } else {
            rank
        };
        Some(self.lengths[k - 1])
    }

    /// The length that at least half of the batch does not exceed.
    pub fn median_length(&self) -> (r: Option<u32>)
        ensures
            r is Some == (self.lengths@.len() > 0),
            r matches Some(t) ==> t == self.lengths@[(self.lengths@.len() + 1) / 2 - 1],
    {
        proof {
            lemma_half(self.lengths@.len());
        }
        self.length_quantile(F32 { bits: 0x3f00_0000 })
    }

    /// The lengths of the batch's matches, ascending.
    pub open spec fn lists_lengths(&self, records: Seq<MatchRecord>) -> bool {
        &&& self.lengths@.to_multiset() == records.map_values(|r: MatchRecord| r.ticks).to_multiset()
        &&& forall|i: int, j: int|
            0 <= i < j < self.lengths@.len() ==> #[trigger] self.lengths@[i]
                <= #[trigger] self.lengths@[j]
    }
}

/// The nearest rank of a quantile in a batch of `n`: the fraction of `n`,
/// rounded up, and no less than the first.
pub open spec fn quantile_rank(q: F32, n: nat) -> int {
    if float::part(q, n) < 1 {
        1
    } else {
        float::part(q, n) as int
    }
}

/// The rank of the median.
proof fn lemma_half(n: nat)
    ensures
        n > 0 ==> quantile_rank(F32 { bits: 0x3f00_0000 }, n) == (n + 1) / 2,
{
    let half = F32 { bits: 0x3f00_0000 };
    let unit = pow2(148) as int;
    power2::lemma_pow2_unfold(149);
    power2::lemma_pow2_pos(148);
    power2::lemma_pow2_adds(23, 125);
    power2::lemma2_to64();
    assert(half.units() == unit) by {
        assert(half.mag() / 0x80_0000 == 126);
        assert(half.mag() % 0x80_0000 == 0);
    }
    let k = ((n + 1) / 2) as int;
    let top = unit * n + 2 * unit - 1;
    let rest = top - k * (2 * unit);
    assert(2 * k == n || 2 * k == n + 1);
    assert(0 <= rest < 2 * unit) by (nonlinear_arith)
        requires
            2 * k == n || 2 * k == n + 1,
            rest == unit * n + 2 * unit - 1 - k * (2 * unit),
            0 < unit,
    ;
    vstd::arithmetic::div_mod::lemma_fundamental_div_mod_converse(top, 2 * unit, k, rest);
}

impl SplitTally {
    /// Every match is counted under one ending, and every win for one side.
    pub open spec fn adds_up(&self) -> bool {
        &&& self.total == self.decided + self.mutual_losses + self.timeouts
        &&& self.decided == self.wins@[0] + self.wins@[1]
    }

    /// `after` is these counts with one more match, which ended in `result`:
    /// the total is one more, and so is what the result counts for.
    pub open spec fn grown_by(&self, result: MatchResult, after: SplitTally) -> bool {
        &&& after.total == self.total + 1
        &&& after.decided == self.decided + if result is Decided {
            1int
        } else {
            0int
        }
        &&& after.mutual_losses == self.mutual_losses + if result is MutualLoss {
            1int
        } else {
            0int
        }
        &&& after.timeouts == self.timeouts + if result is Timeout {
            1int
        } else {
            0int
        }
        &&& after.wins@[0] == self.wins@[0] + if result == MatchResult::Decided(Faction::A) {
            1int
        } else {
            0int
        }
        &&& after.wins@[1] == self.wins@[1] + if result == MatchResult::Decided(Faction::B) {
            1int
        } else {
            0int
        }
    }

    /// Count a match in. Its result decides alone: neither the seed nor the
    /// orientation nor the length has a part in it.
    pub fn add(&mut self, r: &MatchRecord)
        requires
            old(self).total < usize::MAX,
            r.result is Decided ==> old(self).decided < usize::MAX,
            r.result is MutualLoss ==> old(self).mutual_losses < usize::MAX,
            r.result is Timeout ==> old(self).timeouts < usize::MAX,
            r.result == MatchResult::Decided(Faction::A) ==> old(self).wins@[0] < usize::MAX,
            r.result == MatchResult::Decided(Faction::B) ==> old(self).wins@[1] < usize::MAX,
        ensures
            old(self).grown_by(r.result, *final(self)),
            old(self).adds_up() ==> final(self).adds_up(),
    {
        self.total = self.total + 1;
        match r.result {
            MatchResult::Decided(f) => {
                self.decided = self.decided + 1;
                let k: usize = faction_slot(f);
                self.wins[k] = self.wins[k] + 1;
            },
            MatchResult::MutualLoss => {
                self.mutual_losses = self.mutual_losses + 1;
            },
            MatchResult::Timeout => {
                self.timeouts = self.timeouts + 1;
            },
        }
    }
}

/// Every count of a prefix is at most its length.
proof fn lemma_counts_bounded(records: Seq<MatchRecord>, i: int)
    requires
        0 <= i <= records.len(),
    ensures
        forall|p: spec_fn(MatchRecord) -> bool| #[trigger]
            counting::count(records.take(i), p) <= i,
{
    assert forall|p: spec_fn(MatchRecord) -> bool| #[trigger]
        counting::count(records.take(i), p) <= i by {
        counting::lemma_count_bound(records.take(i), p);
    }
}

/// Every count goes up by one exactly if the next record is counted.
proof fn lemma_counts_next(records: Seq<MatchRecord>, i: int)
    requires
        0 <= i < records.len(),
    ensures
        forall|p: spec_fn(MatchRecord) -> bool| #[trigger]
            counting::count(records.take(i + 1), p) == counting::count(records.take(i), p) + if p(
                records[i],
            ) {
                1nat
            } else {
                0nat
            },
{
    assert forall|p: spec_fn(MatchRecord) -> bool| #[trigger]
        counting::count(records.take(i + 1), p) == counting::count(records.take(i), p) + if p(
            records[i],
        ) {
            1nat
        } else {
            0nat
        } by {
        counting::lemma_count_next(records, p, i);
    }
}

// ---- laws -------------------------------------------------------------------

/// Every match is counted once: it was won, drawn or timed out; it was won by
/// one side and from one base; it was played in one orientation.
pub proof fn tally_adds_up(t: Tally, records: Seq<MatchRecord>)
    requires
        t.counts(records),
    ensures
        t.total == t.decided + t.mutual_losses + t.timeouts,
        t.decided == t.wins@[0] + t.wins@[1],
        t.decided == t.spawn_wins@[0] + t.spawn_wins@[1],
        t.total == t.by_orientation@[0].total + t.by_orientation@[1].total,
        t.decided == t.by_orientation@[0].decided + t.by_orientation@[1].decided,
        t.mutual_losses == t.by_orientation@[0].mutual_losses
            + t.by_orientation@[1].mutual_losses,
        t.timeouts == t.by_orientation@[0].timeouts + t.by_orientation@[1].timeouts,
        t.wins@[0] == t.by_orientation@[0].wins@[0] + t.by_orientation@[1].wins@[0],
        t.wins@[1] == t.by_orientation@[0].wins@[1] + t.by_orientation@[1].wins@[1],
{
    let n = Some(Orientation::Normal);
    let s = Some(Orientation::Swapped);
    let (a, b) = (MatchResult::Decided(Faction::A), MatchResult::Decided(Faction::B));
    let (m, o) = (MatchResult::MutualLoss, MatchResult::Timeout);
    let undecided = |r: MatchRecord| r.result is MutualLoss || r.result is Timeout;
    counting::lemma_count_split(records, ended(m, None), ended(o, None), undecided);
    counting::lemma_count_split(records, won(None), undecided, played_in(None));
    lemma_all_played(records);
    counting::lemma_count_split(records, ended(a, None), ended(b, None), won(None));
    counting::lemma_count_split(records, won_at_left(true), won_at_left(false), won(None));
    counting::lemma_count_split(records, played_in(n), played_in(s), played_in(None));
    counting::lemma_count_split(records, won(n), won(s), won(None));
    counting::lemma_count_split(records, ended(m, n), ended(m, s), ended(m, None));
    counting::lemma_count_split(records, ended(o, n), ended(o, s), ended(o, None));
    counting::lemma_count_split(records, ended(a, n), ended(a, s), ended(a, None));
    counting::lemma_count_split(records, ended(b, n), ended(b, s), ended(b, None));
}

proof fn lemma_all_played(records: Seq<MatchRecord>)
    ensures
        counting::count(records, played_in(None)) == records.len(),
    decreases records.len(),
{
    if records.len() > 0 {
        lemma_all_played(records.drop_last());
    }
}

/// Nearest rank, for a fraction `q` between 0 and 1: at least `q` of the batch
/// is no longer than its `q`-quantile, and a smaller rank would leave less than
/// `q`. (`q` is a number of steps of 2^-149.)
pub proof fn a_quantile_covers_its_fraction(q: F32, n: nat)
    requires
        F32::zero().less(q),
        q.less(F32::one()),
        0 < n,
    ensures
        ({
            let k = quantile_rank(q, n);
            &&& 1 <= k <= n
            &&& q.units() * n <= k * pow2(149)
            &&& (k - 1) * pow2(149) < q.units() * n
        }),
{
    let k = quantile_rank(q, n);
    let one = pow2(149) as int;
    let x = (q.units() * n) as int;
    power2::lemma_pow2_pos(149);
    float::units_grow(F32::zero(), q);
    float::units_grow(q, F32::one());
    power2::lemma2_to64();
    power2::lemma_pow2_adds(23, 126);
    assert(F32::one().units() == one) by {
        assert(F32::one().mag() / 0x80_0000 == 127);
        assert(F32::one().mag() % 0x80_0000 == 0);
    }
    assert(0 < x <= n * one) by (nonlinear_arith)
        requires
            x == q.units() * n,
            0 < q.units() < one,
            0 < n,
    ;
    vstd::arithmetic::div_mod::lemma_fundamental_div_mod(x + one - 1, one);
    let rest = (x + one - 1) % one;
    let p = (x + one - 1) / one;
    assert(one * p + rest == x + one - 1);
    assert((p - 1) * one < x <= p * one && 1 <= p <= n) by (nonlinear_arith)
        requires
            one * p + rest == x + one - 1,
            0 <= rest < one,
            0 < x <= n * one,
            0 < one,
    ;
}

/// At least half of the matches are no longer than the median, and at least
/// half are no shorter.
pub proof fn median_splits_the_batch(t: Tally, records: Seq<MatchRecord>)
    requires
        t.lists_lengths(records),
        t.lengths@.len() > 0,
    ensures
        ({
            let n = t.lengths@.len() as int;
            let k = (n + 1) / 2 - 1;
            let m = t.lengths@[k];
            &&& forall|i: int| 0 <= i <= k ==> #[trigger] t.lengths@[i] <= m
            &&& forall|i: int| k <= i < n ==> m <= #[trigger] t.lengths@[i]
            &&& 2 * (k + 1) >= n
            &&& 2 * (n - k) >= n
        }),
{
}

/// A batch of `n` strategies on `k` seeds plays every ordered pair in both
/// orientations on every seed: the two matches at positions `2i` and `2i + 1`
/// differ in nothing but the orientation.
pub proof fn orientations_are_paired(
    f: Fixture,
    g: Fixture,
    ids: Seq<Seq<char>>,
    base: u64,
    i: int,
)
    requires
        0 <= i,
        is_fixture(f, ids, base, 2 * i),
        is_fixture(g, ids, base, 2 * i + 1),
    ensures
        f.a@ == g.a@,
        f.b@ == g.b@,
        f.seed == g.seed,
        f.orientation == Orientation::Normal,
        g.orientation == Orientation::Swapped,
{
    assert((2 * i) / 2 == i && (2 * i + 1) / 2 == i);
}

/// Selecting strategies is a filter: the order in which they are named does not
/// matter.
pub proof fn roster_ignores_order(ids: Seq<Seq<char>>, a: Seq<String>, b: Seq<String>)
    requires
        forall|id: Seq<char>| lookup::listed(a, id) == #[trigger] lookup::listed(b, id),
    ensures
        chosen(ids, a) == chosen(ids, b),
    decreases ids.len(),
{
    if ids.len() > 0 {
        roster_ignores_order(ids.drop_last(), a, b);
        assert(lookup::listed(a, ids.last()) == lookup::listed(b, ids.last()));
    }
}

/// The seeds of a batch are the stream of a generator seeded with its base.
pub proof fn seeds_are_a_stream(base: u64, k: nat)
    requires
        k < 0x1_0000_0000,
    ensures
        seed_of(base, k) == spatial::draw(base, k),
{
    lemma_state_is_multiple(base, k + 1);
}

proof fn lemma_state_is_multiple(base: u64, n: nat)
    requires
        n <= 0x1_0000_0000,
    ensures
        spatial::state_after(base, n) == spatial::wrap_add(
            base,
            spatial::wrap_mul(n as u64, GOLDEN),
        ),
    decreases n,
{
    let m = 0x1_0000_0000_0000_0000int;
    let g = GOLDEN as int;
    if n > 0 {
        lemma_state_is_multiple(base, (n - 1) as nat);
        let p = (n - 1) * g;
        let b = base as int;
        assert(n * g == p + g) by (nonlinear_arith)
            requires
                p == (n - 1) * g,
        ;
        vstd::arithmetic::div_mod::lemma_add_mod_noop(b, p, m);
        vstd::arithmetic::div_mod::lemma_add_mod_noop(b, p + g, m);
        vstd::arithmetic::div_mod::lemma_add_mod_noop(b + p, g, m);
        assert((b % m + p % m) % m == (b + p) % m);
        assert(b % m == b && g % m == g);
        assert(((b + p) % m + g) % m == (b + p + g) % m);
        assert((b + (p + g) % m) % m == (b + p + g) % m);
    } else {
        assert(0 * g == 0);
    }
}

/// No two matches of a batch run on one seed, and two batches with different
/// bases share none at the same place.
pub proof fn seeds_spread(base: u64, other: u64, j: nat, k: nat)
    requires
        j < 0x1_0000_0000,
        k < 0x1_0000_0000,
    ensures
        seed_of(base, j) == seed_of(base, k) ==> j == k,
        seed_of(base, k) == seed_of(other, k) ==> base == other,
{
    seeds_are_a_stream(base, j);
    seeds_are_a_stream(base, k);
    seeds_are_a_stream(other, k);
    if seed_of(base, j) == seed_of(base, k) {
        spatial::draws_are_distinct(base, j, k);
    }
    if seed_of(base, k) == seed_of(other, k) {
        spatial::streams_differ(base, other, k);
    }
}

/// A match is won by whom its outcome names; one that ends without a winner is a
/// mutual loss, and never a timeout.
pub proof fn an_outcome_is_its_winners(o: MatchOutcome)
    ensures
        result_of(o).won_by() == o.winner,
        !(result_of(o) is Timeout),
        result_of(o) is MutualLoss <==> o.winner is None,
        MatchResult::Timeout.won_by() is None,
        MatchResult::MutualLoss.won_by() is None,
{
}

/// A record is won from the left exactly if the winner's base stands there.
pub proof fn the_left_wins_where_its_base_stands(r: MatchRecord, f: Faction)
    ensures
        r.left_won() is None <==> !(r.result is Decided),
        r.result == MatchResult::Decided(f) ==> r.left_won() == Some(
            headless::base_x(f, r.orientation) < 0,
        ),
{
}

/// The strategies that are played are those that are named, in the order of the
/// content.
pub proof fn the_named_are_played(ids: Seq<Seq<char>>, only: Seq<String>)
    ensures
        chosen(ids, only) == ids.filter(
            |id: Seq<char>| exists|j: int| 0 <= j < only.len() && (#[trigger] only[j])@ == id,
        ),
    decreases ids.len(),
{
    reveal(Seq::filter);
    if ids.len() > 0 {
        the_named_are_played(ids.drop_last(), only);
        let all = text::views(only);
        lookup::lemma_first_at(all, ids.last(), 0);
        assert forall|j: int| 0 <= j < only.len() implies all[j] == (#[trigger] only[j])@ by {}
    }
}

/// A batch plays everybody against everybody on every seed, in both orientations:
/// the match at this place is `a` against `b` on the seed of draw `k`.
pub proof fn every_pairing_is_played(
    f: Fixture,
    ids: Seq<Seq<char>>,
    base: u64,
    k: int,
    a: int,
    b: int,
    swapped: bool,
)
    requires
        0 <= k < 0x1_0000_0000,
        0 <= a < ids.len(),
        0 <= b < ids.len(),
        is_fixture(
            f,
            ids,
            base,
            ((k * ids.len() + a) * ids.len() + b) * 2 + if swapped {
                1int
            } else {
                0int
            },
        ),
    ensures
        f.a@ == ids[a],
        f.b@ == ids[b],
        f.seed == spatial::draw(base, k as nat),
        f.orientation == if swapped {
            Orientation::Swapped
        } else {
            Orientation::Normal
        },
{
    lemma_place(
        k,
        a,
        b,
        if swapped {
            1int
        } else {
            0int
        },
        ids.len() as int,
    );
    seeds_are_a_stream(base, k as nat);
}

proof fn lemma_counted(
    records: Seq<MatchRecord>,
    p: spec_fn(MatchRecord) -> bool,
    q: spec_fn(MatchRecord) -> bool,
)
    requires
        forall|r: MatchRecord| #[trigger] p(r) == q(r),
    ensures
        counting::count(records, p) == records.filter(q).len(),
    decreases records.len(),
{
    reveal(Seq::filter);
    if records.len() > 0 {
        lemma_counted(records.drop_last(), p, q);
        assert(p(records.last()) == q(records.last()));
    }
}

/// A summary counts what was played: wins by side and by base, mutual losses and
/// timeouts, each as often as the records say.
pub proof fn a_summary_counts_the_records(t: Tally, records: Seq<MatchRecord>)
    requires
        t.counts(records),
    ensures
        t.total == records.len(),
        t.wins@[0] == records.filter(
            |r: MatchRecord| r.result == MatchResult::Decided(Faction::A),
        ).len(),
        t.wins@[1] == records.filter(
            |r: MatchRecord| r.result == MatchResult::Decided(Faction::B),
        ).len(),
        t.decided == records.filter(|r: MatchRecord| r.result is Decided).len(),
        t.mutual_losses == records.filter(|r: MatchRecord| r.result is MutualLoss).len(),
        t.timeouts == records.filter(|r: MatchRecord| r.result is Timeout).len(),
        t.spawn_wins@[0] == records.filter(
            |r: MatchRecord|
                r.result matches MatchResult::Decided(f) && headless::base_x(f, r.orientation) < 0,
        ).len(),
        t.spawn_wins@[1] == records.filter(
            |r: MatchRecord|
                r.result matches MatchResult::Decided(f) && headless::base_x(f, r.orientation) > 0,
        ).len(),
        t.by_orientation@[0].total == records.filter(
            |r: MatchRecord| r.orientation is Normal,
        ).len(),
        t.by_orientation@[1].total == records.filter(
            |r: MatchRecord| r.orientation is Swapped,
        ).len(),
        t.by_orientation@[0].wins@[0] == records.filter(
            |r: MatchRecord|
                r.orientation is Normal && r.result == MatchResult::Decided(Faction::A),
        ).len(),
        t.by_orientation@[1].wins@[0] == records.filter(
            |r: MatchRecord|
                r.orientation is Swapped && r.result == MatchResult::Decided(Faction::A),
        ).len(),
{
    let (x, y) = (MatchResult::Decided(Faction::A), MatchResult::Decided(Faction::B));
    let (n, s) = (Some(Orientation::Normal), Some(Orientation::Swapped));
    lemma_counted(records, ended(x, None), |r: MatchRecord| r.result == x);
    lemma_counted(records, ended(y, None), |r: MatchRecord| r.result == y);
    lemma_counted(records, won(None), |r: MatchRecord| r.result is Decided);
    lemma_counted(
        records,
        ended(MatchResult::MutualLoss, None),
        |r: MatchRecord| r.result is MutualLoss,
    );
    lemma_counted(
        records,
        ended(MatchResult::Timeout, None),
        |r: MatchRecord| r.result is Timeout,
    );
    lemma_counted(
        records,
        won_at_left(true),
        |r: MatchRecord|
            r.result matches MatchResult::Decided(f) && headless::base_x(f, r.orientation) < 0,
    );
    lemma_counted(
        records,
        won_at_left(false),
        |r: MatchRecord|
            r.result matches MatchResult::Decided(f) && headless::base_x(f, r.orientation) > 0,
    );
    lemma_counted(records, played_in(n), |r: MatchRecord| r.orientation is Normal);
    lemma_counted(records, played_in(s), |r: MatchRecord| r.orientation is Swapped);
    lemma_counted(
        records,
        ended(x, n),
        |r: MatchRecord| r.orientation is Normal && r.result == MatchResult::Decided(Faction::A),
    );
    lemma_counted(
        records,
        ended(x, s),
        |r: MatchRecord| r.orientation is Swapped && r.result == MatchResult::Decided(Faction::A),
    );
}

} // verus!
