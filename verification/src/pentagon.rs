//! Does the designed counter cycle hold?
//!
//! The cycle is derived by walking each unit's nemesis link; each unit of it is
//! mapped to the strategy that masses it, and that pair's cell of the win
//! matrix is read. Every link carries its own verdict.

use vstd::prelude::*;
use vstd::string::*;

use crate::batch::MatchRecord;
use crate::counting;
use crate::float::F64;
use crate::metrics;
use crate::metrics::{Cell, WinMatrix, HALF_BITS};
use crate::ratio;
use crate::sim::content::lookup;
use crate::sim::content::{Content, StrategyDef, UnitDef};
use crate::text;

verus! {

/// Why a roster's nemesis links do not form one closed cycle over every unit
/// that has one.
#[derive(Clone, Debug)]
pub enum CycleError {
    /// No unit names a nemesis at all.
    NoNemesis,
    /// A unit is its own prey.
    SelfNemesis(String),
    /// A unit's nemesis names something that is not a unit.
    UnknownPrey { unit: String, prey: String },
    /// The walk reached a unit with no nemesis.
    Open { at: String },
    /// The walk re-entered the chain somewhere other than its start.
    Lasso { at: String },
    /// The walk closed, but left units with a nemesis out.
    Partial {
        /// The closed cycle the walk found.
        cycle: Vec<String>,
        /// Units with a nemesis it does not contain, in order.
        missing: Vec<String>,
    },
}

/// What a walk over the nemesis links finds, as texts.
pub enum Finding {
    Cycle(Seq<Seq<char>>),
    NoNemesis,
    SelfNemesis(Seq<char>),
    UnknownPrey(Seq<char>, Seq<char>),
    Open(Seq<char>),
    Lasso(Seq<char>),
    Partial(Seq<Seq<char>>, Seq<Seq<char>>),
}

/// A result as texts.
pub open spec fn finding_of(r: Result<Vec<String>, CycleError>) -> Finding {
    match r {
        Ok(c) => Finding::Cycle(text::views(c@)),
        Err(CycleError::NoNemesis) => Finding::NoNemesis,
        Err(CycleError::SelfNemesis(u)) => Finding::SelfNemesis(u@),
        Err(CycleError::UnknownPrey { unit, prey }) => Finding::UnknownPrey(unit@, prey@),
        Err(CycleError::Open { at }) => Finding::Open(at@),
        Err(CycleError::Lasso { at }) => Finding::Lasso(at@),
        Err(CycleError::Partial { cycle, missing }) => Finding::Partial(
            text::views(cycle@),
            text::views(missing@),
        ),
    }
}

impl CycleError {
    pub open spec fn shown(&self) -> Seq<char> {
        match self {
            CycleError::NoNemesis => "no unit names a nemesis: there is no counter cycle"@,
            CycleError::SelfNemesis(u) => "unit `"@ + u@ + "` is its own nemesis"@,
            CycleError::UnknownPrey { unit, prey } => "unit `"@ + unit@
                + "` names unknown nemesis `"@ + prey@ + "`"@,
            CycleError::Open { at } => "the nemesis chain does not close: `"@ + at@
                + "` has no nemesis"@,
            CycleError::Lasso { at } => "the nemesis chain re-enters itself at `"@ + at@
                + "`, forming a lasso"@,
            CycleError::Partial { cycle, missing } => "the nemesis chain closes over "@
                + text::debug_list(text::views(cycle@)) + " but leaves "@ + text::debug_list(
                text::views(missing@),
            ) + " out"@,
        }
    }

    /// The text of the error.
    pub fn message(&self) -> (r: String)
        ensures
            r@ == self.shown(),
    {
        match self {
            CycleError::NoNemesis =>
                "no unit names a nemesis: there is no counter cycle".to_owned(),
            CycleError::SelfNemesis(u) => text::cat3("unit `", u.as_str(), "` is its own nemesis"),
            CycleError::UnknownPrey { unit, prey } => text::cat5(
                "unit `",
                unit.as_str(),
                "` names unknown nemesis `",
                prey.as_str(),
                "`",
            ),
            CycleError::Open { at } => text::cat3(
                "the nemesis chain does not close: `",
                at.as_str(),
                "` has no nemesis",
            ),
            CycleError::Lasso { at } => text::cat3(
                "the nemesis chain re-enters itself at `",
                at.as_str(),
                "`, forming a lasso",
            ),
            CycleError::Partial { cycle, missing } => text::cat5(
                "the nemesis chain closes over ",
                text::debug_strs(cycle).as_str(),
                " but leaves ",
                text::debug_strs(missing).as_str(),
                " out",
            ),
        }
    }
}

// ---- the cycle ----------------------------------------------------------------

/// What the unit with this id preys on.
pub open spec fn prey_of(c: &Content, id: Seq<char>) -> Option<Seq<char>> {
    match c.unit_pos(id) {
        Some(i) => match c.units@[i].nemesis {
            Some(p) => Some(p@),
            None => None,
        },
        None => None,
    }
}

/// From unit `k` on, the first nemesis link that leads nowhere.
pub open spec fn link_fault(c: &Content, k: int) -> Option<Finding>
    decreases c.units@.len() - k,
{
    if k < 0 || k >= c.units@.len() {
        None
    } else {
        let u = c.units@[k];
        match u.nemesis {
            None => link_fault(c, k + 1),
            Some(prey) => if prey@ == u.id@ {
                Some(Finding::SelfNemesis(u.id@))
            } else if c.unit_pos(prey@) is None {
                Some(Finding::UnknownPrey(u.id@, prey@))
            } else {
                link_fault(c, k + 1)
            },
        }
    }
}

/// From unit `k` on, the first that names a nemesis.
pub open spec fn first_hunter(c: &Content, k: int) -> Option<Seq<char>>
    decreases c.units@.len() - k,
{
    if k < 0 || k >= c.units@.len() {
        None
    } else if c.units@[k].nemesis is Some {
        Some(c.units@[k].id@)
    } else {
        first_hunter(c, k + 1)
    }
}

/// The units with a nemesis that are not in `cycle`, in order.
pub open spec fn left_out(units: Seq<UnitDef>, cycle: Seq<Seq<char>>) -> Seq<Seq<char>>
    decreases units.len(),
{
    if units.len() == 0 {
        Seq::empty()
    } else {
        let before = left_out(units.drop_last(), cycle);
        let u = units.last();
        if u.nemesis is Some && lookup::first_at(cycle, u.id@, 0) is None {
            before.push(u.id@)
        } else {
            before
        }
    }
}

/// Where following the prey from the end of `trail` leads.
pub open spec fn walk_on(c: &Content, trail: Seq<Seq<char>>) -> Finding
    decreases c.units@.len() + 1 - trail.len(),
    when trail.len() <= c.units@.len()
{
    match prey_of(c, trail.last()) {
        None => Finding::Open(trail.last()),
        Some(prey) => if prey == trail[0] {
            let missing = left_out(c.units@, trail);
            if missing.len() == 0 {
                Finding::Cycle(trail)
            } else {
                Finding::Partial(trail, missing)
            }
        } else if lookup::first_at(trail, prey, 0) is Some {
            Finding::Lasso(prey)
        } else {
            walk_on(c, trail.push(prey))
        },
    }
}

/// What the nemesis links of the content say.
pub open spec fn cycle_finding(c: &Content) -> Finding {
    match link_fault(c, 0) {
        Some(f) => f,
        None => match first_hunter(c, 0) {
            None => Finding::NoNemesis,
            Some(start) => walk_on(c, seq![start]),
        },
    }
}

/// The unit with this id preys on this.
fn prey(c: &Content, id: &str) -> (r: Option<String>)
    ensures
        match prey_of(c, id@) {
            Some(p) => r matches Some(s) && s@ == p,
            None => r is None,
        },
{
    match c.unit_index(id) {
        Some(i) => match &c.units[i].nemesis {
            Some(p) => Some(p.clone()),
            None => None,
        },
        None => None,
    }
}

fn check_links(c: &Content) -> (r: Option<CycleError>)
    ensures
        match link_fault(c, 0) {
            Some(f) => r matches Some(e) && finding_of(Err(e)) == f,
            None => r is None,
        },
{
    let mut k: usize = 0;
    while k < c.units.len()
        invariant
            k <= c.units@.len(),
            link_fault(c, 0) == link_fault(c, k as int),
        decreases c.units@.len() - k,
    {
        let u: &UnitDef = &c.units[k];
        match &u.nemesis {
            None => {},
            Some(prey) => {
                if text::same(prey.as_str(), u.id.as_str()) {
                    return Some(CycleError::SelfNemesis(u.id.clone()));
                }
                if c.unit_index(prey.as_str()).is_none() {
                    return Some(
                        CycleError::UnknownPrey { unit: u.id.clone(), prey: prey.clone() },
                    );
                }
            },
        }
        k = k + 1;
    }
    None
}

fn find_hunter(c: &Content) -> (r: Option<String>)
    ensures
        match first_hunter(c, 0) {
            Some(id) => r matches Some(s) && s@ == id,
            None => r is None,
        },
{
    let mut k: usize = 0;
    while k < c.units.len()
        invariant
            k <= c.units@.len(),
            first_hunter(c, 0) == first_hunter(c, k as int),
        decreases c.units@.len() - k,
    {
        if c.units[k].nemesis.is_some() {
            return Some(c.units[k].id.clone());
        }
        k = k + 1;
    }
    None
}

fn find_left_out(c: &Content, cycle: &Vec<String>) -> (r: Vec<String>)
    ensures
        text::views(r@) == left_out(c.units@, text::views(cycle@)),
{
    let mut r: Vec<String> = Vec::new();
    let mut k: usize = 0;
    assert(text::views(r@) =~= Seq::<Seq<char>>::empty());
    while k < c.units.len()
        invariant
            k <= c.units@.len(),
            text::views(r@) == left_out(c.units@.take(k as int), text::views(cycle@)),
        decreases c.units@.len() - k,
    {
        assert(c.units@.take(k + 1).drop_last() =~= c.units@.take(k as int));
        let u: &UnitDef = &c.units[k];
        if u.nemesis.is_some() && !lookup::lists(cycle, u.id.as_str()) {
            let ghost before = r@;
            r.push(u.id.clone());
            assert(text::views(r@) =~= text::views(before).push(u.id@));
        }
        k = k + 1;
    }
    assert(c.units@.take(k as int) =~= c.units@);
    r
}

/// A trail of different units cannot be longer than the roster.
proof fn lemma_trail_fits(c: &Content, trail: Seq<Seq<char>>)
    requires
        lookup::distinct(trail),
        forall|i: int| 0 <= i < trail.len() ==> c.unit_pos(#[trigger] trail[i]) is Some,
    ensures
        trail.len() <= c.units@.len(),
{
    let ids = lookup::unit_ids(c.units@);
    let places = trail.map_values(|id: Seq<char>| c.unit_pos(id)->0);
    assert forall|i: int| 0 <= i < trail.len() implies 0 <= #[trigger] places[i] < c.units@.len()
        && ids[places[i]] == trail[i] by {
        lookup::lemma_first_at(ids, trail[i], 0);
    }
    assert(places.no_duplicates()) by {
        assert forall|i: int, j: int|
            0 <= i < places.len() && 0 <= j < places.len() && i != j implies places[i]
            != places[j] by {
            assert(ids[places[i]] == trail[i] && ids[places[j]] == trail[j]);
            if i < j {
                assert(trail[i] != trail[j]);
            } else {
                assert(trail[j] != trail[i]);
            }
        }
    }
    places.unique_seq_to_set();
    let all = vstd::set_lib::set_int_range(0, c.units@.len() as int);
    vstd::set_lib::lemma_int_range(0, c.units@.len() as int);
    assert(places.to_set().subset_of(all));
    vstd::set_lib::lemma_len_subset(places.to_set(), all);
}

proof fn lemma_hunter_known(c: &Content, k: int)
    requires
        0 <= k <= c.units@.len(),
        first_hunter(c, k) is Some,
    ensures
        c.unit_pos(first_hunter(c, k)->0) is Some,
    decreases c.units@.len() - k,
{
    if c.units@[k].nemesis is Some {
        let ids = lookup::unit_ids(c.units@);
        lookup::lemma_first_at(ids, c.units@[k].id@, 0);
        assert(ids[k] == c.units@[k].id@);
    } else {
        lemma_hunter_known(c, k + 1);
    }
}

proof fn lemma_links_known(c: &Content, k: int, i: int)
    requires
        0 <= k <= i < c.units@.len(),
        link_fault(c, k) is None,
        c.units@[i].nemesis is Some,
    ensures
        c.unit_pos(c.units@[i].nemesis->0@) is Some,
    decreases i - k,
{
    if k < i {
        lemma_links_known(c, k + 1, i);
    }
}

proof fn lemma_prey_known(c: &Content, id: Seq<char>)
    requires
        link_fault(c, 0) is None,
        prey_of(c, id) is Some,
    ensures
        c.unit_pos(prey_of(c, id)->0) is Some,
{
    lookup::lemma_first_at(lookup::unit_ids(c.units@), id, 0);
    lemma_links_known(c, 0, c.unit_pos(id)->0);
}

/// The counter cycle that the nemesis links state: each predator followed by
/// its prey, from the first unit with a nemesis back to it. Every unit with a
/// nemesis stands in it once, or the reason comes back.
pub fn nemesis_cycle(content: &Content) -> (r: Result<Vec<String>, CycleError>)
    ensures
        finding_of(r) == cycle_finding(content),
{
    match check_links(content) {
        Some(e) => {
            return Err(e);
        },
        None => {},
    }
    let start: String = match find_hunter(content) {
        Some(s) => s,
        None => {
            return Err(CycleError::NoNemesis);
        },
    };
    let mut cycle: Vec<String> = Vec::new();
    cycle.push(start.clone());
    proof {
        lemma_hunter_known(content, 0);
        assert(text::views(cycle@) =~= seq![start@]);
        lemma_trail_fits(content, text::views(cycle@));
    }
    loop
        invariant
            link_fault(content, 0) is None,
            cycle@.len() > 0,
            cycle@[0]@ == start@,
            lookup::distinct(text::views(cycle@)),
            forall|i: int|
                0 <= i < cycle@.len() ==> content.unit_pos(#[trigger] text::views(cycle@)[i]) is Some,
            cycle@.len() <= content.units@.len(),
            cycle_finding(content) == walk_on(content, text::views(cycle@)),
        decreases content.units@.len() - cycle@.len(),
    {
        let ghost trail = text::views(cycle@);
        let last: &String = &cycle[cycle.len() - 1];
        assert(trail.last() == last@);
        match prey(content, last.as_str()) {
            None => {
                return Err(CycleError::Open { at: last.clone() });
            },
            Some(p) => {
                proof {
                    lemma_prey_known(content, last@);
                }
                if text::same(p.as_str(), start.as_str()) {
                    let missing: Vec<String> = find_left_out(content, &cycle);
                    assert(text::views(missing@).len() == missing@.len());
                    if missing.len() > 0 {
                        return Err(CycleError::Partial { cycle, missing });
                    }
                    return Ok(cycle);
                }
                if lookup::lists(&cycle, p.as_str()) {
                    return Err(CycleError::Lasso { at: p });
                }
                let ghost q = p@;
                cycle.push(p);
                proof {
                    let next = text::views(cycle@);
                    assert(next =~= trail.push(q));
                    lookup::lemma_first_at(trail, q, 0);
                    assert forall|i: int, j: int| 0 <= i < j < next.len() implies #[trigger] next[i]
                        != #[trigger] next[j] by {
                        assert(next[i] == trail[i]);
                        if j < trail.len() {
                            assert(next[j] == trail[j]);
                        }
                    }
                    assert forall|i: int| 0 <= i < next.len() implies content.unit_pos(
                        #[trigger] next[i],
                    ) is Some by {
                        if i < trail.len() {
                            assert(next[i] == trail[i]);
                        }
                    }
                    lemma_trail_fits(content, next);
                }
            },
        }
    }
}

// ---- the probes ---------------------------------------------------------------

/// The build order names this unit and nothing else.
pub open spec fn masses(s: StrategyDef, unit: Seq<char>) -> bool {
    s.army@.len() > 0 && forall|k: int|
        0 <= k < s.army@.len() ==> (#[trigger] s.army@[k]).unit@ == unit
}

/// From strategy `k` on, the first that masses the unit.
pub open spec fn massing(c: &Content, unit: Seq<char>, k: int) -> Option<int>
    decreases c.strategies@.len() - k,
{
    if k < 0 || k >= c.strategies@.len() {
        None
    } else if masses(c.strategies@[k], unit) {
        Some(k)
    } else {
        massing(c, unit, k + 1)
    }
}

fn is_massing(s: &StrategyDef, unit: &str) -> (r: bool)
    ensures
        r == masses(*s, unit@),
{
    if s.army.len() == 0 {
        return false;
    }
    let mut k: usize = 0;
    while k < s.army.len()
        invariant
            k <= s.army@.len(),
            forall|i: int| 0 <= i < k ==> (#[trigger] s.army@[i]).unit@ == unit@,
        decreases s.army@.len() - k,
    {
        if !text::same(s.army[k].unit.as_str(), unit) {
            assert(s.army@[k as int].unit@ != unit@);
            return false;
        }
        k = k + 1;
    }
    true
}

/// The strategy that masses `unit`: the first whose build order names it and
/// nothing else. By build order, never by name.
pub fn mass_strategy<'c>(content: &'c Content, unit: &str) -> (r: Option<&'c StrategyDef>)
    ensures
        r is Some == massing(content, unit@, 0) is Some,
        r matches Some(s) ==> *s == content.strategies@[massing(content, unit@, 0)->0],
{
    let mut k: usize = 0;
    while k < content.strategies.len()
        invariant
            k <= content.strategies@.len(),
            massing(content, unit@, 0) == massing(content, unit@, k as int),
        decreases content.strategies@.len() - k,
    {
        if is_massing(&content.strategies[k], unit) {
            return Some(&content.strategies[k]);
        }
        k = k + 1;
    }
    None
}

/// What one predicted counter did.
#[derive(Clone, Copy, Debug, PartialEq, Eq, Structural)]
pub enum Verdict {
    /// The predator's rate over its prey is above one half.
    Holds,
    /// A defined rate of one half or less.
    Fails,
    /// Nothing was decided.
    Undefined,
    /// One of the two units has no strategy that masses it.
    NoStrategy,
}

impl Verdict {
    pub open spec fn word(self) -> Seq<char> {
        match self {
            Verdict::Holds => "holds"@,
            Verdict::Fails => "FAILS"@,
            Verdict::Undefined => "undefined"@,
            Verdict::NoStrategy => "no probe"@,
        }
    }

    /// How this reads in a table.
    pub fn label(self) -> (r: &'static str)
        ensures
            r@ == self.word(),
    {
        match self {
            Verdict::Holds => "holds",
            Verdict::Fails => "FAILS",
            Verdict::Undefined => "undefined",
            Verdict::NoStrategy => "no probe",
        }
    }
}

/// One link of the cycle: a predicted counter, the matchup that tests it, and
/// what that matchup said.
#[derive(Clone, Debug)]
pub struct Link {
    /// Unit id of the predicted counter.
    pub predator: String,
    /// Unit id of its prey.
    pub prey: String,
    /// The strategy massing the predator.
    pub predator_strategy: Option<String>,
    /// The strategy massing the prey.
    pub prey_strategy: Option<String>,
    /// The predator's rate.
    pub rate: Option<F64>,
    /// Decided matches behind the rate.
    pub n_decided: u32,
    /// Matches of this pair that hit the tick cap.
    pub n_timeout: u32,
    pub verdict: Verdict,
}

/// The id of the strategy that masses a unit.
pub open spec fn probe(c: &Content, unit: Seq<char>) -> Option<Seq<char>> {
    match massing(c, unit, 0) {
        Some(k) => Some(c.strategies@[k].id@),
        None => None,
    }
}

/// The cell of two probes, the first one's row and the second one's column.
pub open spec fn probe_cell(m: &WinMatrix, p: Option<Seq<char>>, q: Option<Seq<char>>) -> Option<
    Cell,
> {
    if p is Some && q is Some {
        let i = lookup::first_at(m.names(), p->0, 0);
        let j = lookup::first_at(m.names(), q->0, 0);
        if i is Some && j is Some {
            Some(m.at(i->0, j->0))
        } else {
            None
        }
    } else {
        None
    }
}

/// An optional text as it is read.
pub open spec fn opt_text(s: Option<String>) -> Option<Seq<char>> {
    match s {
        Some(s) => Some(s@),
        None => None,
    }
}

impl Link {
    /// The link reads the cell of its predator's probe against its prey's.
    pub open spec fn reads(
        &self,
        c: &Content,
        m: &WinMatrix,
        predator: Seq<char>,
        prey: Seq<char>,
    ) -> bool {
        let p = probe(c, predator);
        let q = probe(c, prey);
        let cell = probe_cell(m, p, q);
        &&& self.predator@ == predator
        &&& self.prey@ == prey
        &&& opt_text(self.predator_strategy) == p
        &&& opt_text(self.prey_strategy) == q
        &&& self.rate is Some == (cell is Some && cell->0.n_decided > 0)
        &&& self.rate is Some ==> self.rate->0.bits == ratio::bits64(
            cell->0.half_wins as nat,
            2 * cell->0.n_decided as nat,
        )
        &&& self.n_decided == if cell is Some {
            cell->0.n_decided
        } else {
            0
        }
        &&& self.n_timeout == if cell is Some {
            cell->0.n_timeout
        } else {
            0
        }
        &&& self.verdict == if p is None || q is None {
            Verdict::NoStrategy
        } else if self.rate is None {
            Verdict::Undefined
        } else if cell->0.half_wins > cell->0.n_decided {
            Verdict::Holds
        } else {
            Verdict::Fails
        }
    }

    fn read(content: &Content, matrix: &WinMatrix, predator: &str, prey: &str) -> (r: Link)
        requires
            matrix.wf(),
        ensures
            r.reads(content, matrix, predator@, prey@),
    {
        let predator_strategy: Option<String> = match mass_strategy(content, predator) {
            Some(s) => Some(s.id.clone()),
            None => None,
        };
        let prey_strategy: Option<String> = match mass_strategy(content, prey) {
            Some(s) => Some(s.id.clone()),
            None => None,
        };
        // Predator row, prey column: the predator's rate over its prey.
        let cell: Option<Cell> = match (&predator_strategy, &prey_strategy) {
            (Some(p), Some(q)) => match matrix.get(p.as_str(), q.as_str()) {
                Some(c) => Some(*c),
                None => None,
            },
            _ => None,
        };
        let known: bool = predator_strategy.is_some() && prey_strategy.is_some();
        let (rate, n_decided, n_timeout): (Option<F64>, u32, u32) = match cell {
            Some(c) => (c.rate(), c.n_decided, c.n_timeout),
            None => (None, 0, 0),
        };
        let verdict: Verdict = if !known {
            Verdict::NoStrategy
        } else {
            match rate {
                None => Verdict::Undefined,
                Some(f) => {
                    proof {
                        metrics::above_half(cell->0.half_wins as nat, cell->0.n_decided as nat);
                    }
                    if f.bits > HALF_BITS {
                        Verdict::Holds
                    } else {
                        Verdict::Fails
                    }
                },
            }
        };
        Link {
            predator: predator.to_owned(),
            prey: prey.to_owned(),
            predator_strategy,
            prey_strategy,
            rate,
            n_decided,
            n_timeout,
            verdict,
        }
    }

    /// The link as a line of a table. `rate` is the rate as people read it, for
    /// a link that has one; a link without one shows dashes.
    pub open spec fn shown(&self, rate: Seq<char>) -> Seq<char> {
        text::at_right(self.predator@, 8) + " > "@ + text::at_left(self.prey@, 8) + " "@
            + if self.rate is Some {
            rate
        } else {
            "   -- "@
        } + "  "@ + text::at_right(text::dec(self.n_decided as nat), 3) + " decided, "@
            + text::dec(self.n_timeout as nat) + " timeouts  "@ + self.verdict.word()
    }

    /// The link as a line of a table. `rate` is the rate as people read it, for
    /// a link that has one.
    pub fn line(&self, rate: &str) -> (r: String)
        ensures
            r@ == self.shown(rate@),
    {
        let mut s: String = String::new();
        text::push_right(&mut s, self.predator.as_str(), 8);
        s.append(" > ");
        text::push_left(&mut s, self.prey.as_str(), 8);
        s.append(" ");
        if self.rate.is_some() {
            s.append(rate);
        } else {
            s.append("   -- ");
        }
        s.append("  ");
        text::push_right(&mut s, text::decimal(self.n_decided as u64).as_str(), 3);
        s.append(" decided, ");
        text::push_dec(&mut s, self.n_timeout as u64);
        s.append(" timeouts  ");
        s.append(self.verdict.label());
        assert(s@ =~= self.shown(rate@));
        s
    }
}

/// The result of holding a content set's cycle against a matrix: one [`Link`]
/// per predicted counter, in cycle order.
#[derive(Clone, Debug)]
pub struct PentagonReport {
    links: Vec<Link>,
}

/// How many links have this verdict.
pub open spec fn verdicts(links: Seq<Link>, v: Verdict) -> nat {
    counting::count(links, |l: Link| l.verdict == v)
}

/// `id` at the end of the list, unless it has a strategy or stands there
/// already.
pub open spec fn note_gap(
    found: Seq<Seq<char>>,
    unit: Seq<char>,
    strategy: Option<String>,
) -> Seq<Seq<char>> {
    if strategy is None {
        metrics::with_id(found, unit)
    } else {
        found
    }
}

/// The units of the links without a strategy, in order of first appearance.
pub open spec fn gaps_of(links: Seq<Link>) -> Seq<Seq<char>>
    decreases links.len(),
{
    if links.len() == 0 {
        Seq::empty()
    } else {
        let l = links.last();
        note_gap(
            note_gap(gaps_of(links.drop_last()), l.predator@, l.predator_strategy),
            l.prey@,
            l.prey_strategy,
        )
    }
}

impl PentagonReport {
    pub closed spec fn all(&self) -> Seq<Link> {
        self.links@
    }

    /// Link `i` reads the `i`-th unit of the cycle against the next.
    pub open spec fn covers(&self, c: &Content, m: &WinMatrix, cycle: Seq<Seq<char>>) -> bool {
        &&& self.all().len() == cycle.len()
        &&& forall|i: int|
            0 <= i < cycle.len() ==> (#[trigger] self.all()[i]).reads(
                c,
                m,
                cycle[i],
                cycle[(i + 1) % cycle.len() as int],
            )
    }

    /// Derive the cycle and read each link off the matrix.
    pub fn of(content: &Content, matrix: &WinMatrix) -> (r: Result<Self, CycleError>)
        requires
            matrix.wf(),
        ensures
            match cycle_finding(content) {
                Finding::Cycle(cycle) => r is Ok && r->Ok_0.covers(content, matrix, cycle),
                f => r is Err && finding_of(Err(r->Err_0)) == f,
            },
    {
        let cycle: Vec<String> = match nemesis_cycle(content) {
            Ok(c) => c,
            Err(e) => {
                return Err(e);
            },
        };
        let mut links: Vec<Link> = Vec::new();
        let n: usize = cycle.len();
        let mut i: usize = 0;
        while i < n
            invariant
                matrix.wf(),
                n == cycle@.len(),
                i <= n,
                links@.len() == i,
                forall|k: int|
                    0 <= k < i ==> (#[trigger] links@[k]).reads(
                        content,
                        matrix,
                        text::views(cycle@)[k],
                        text::views(cycle@)[(k + 1) % n as int],
                    ),
            decreases n - i,
        {
            let next: usize = if i + 1 < n {
                i + 1
            } else {
                0
            };
            proof {
                if i + 1 < n {
                    vstd::arithmetic::div_mod::lemma_small_mod((i + 1) as nat, n as nat);
                } else {
                    vstd::arithmetic::div_mod::lemma_mod_self_0(n as int);
                }
                assert(next == (i + 1) % n as int);
            }
            let link: Link = Link::read(
                content,
                matrix,
                cycle[i].as_str(),
                cycle[next].as_str(),
            );
            links.push(link);
            i = i + 1;
        }
        Ok(PentagonReport { links })
    }

    /// The same, straight from a batch's records.
    pub fn of_records(content: &Content, records: &[MatchRecord]) -> (r: Result<Self, CycleError>)
        requires
            2 * records@.len() <= u32::MAX,
            metrics::appearing(records@).len() * metrics::appearing(records@).len() <= usize::MAX,
        ensures
            match cycle_finding(content) {
                Finding::Cycle(cycle) => r is Ok && exists|m: WinMatrix|
                    m.wf() && m.describes(records@) && #[trigger] r->Ok_0.covers(
                        content,
                        &m,
                        cycle,
                    ),
                f => r is Err && finding_of(Err(r->Err_0)) == f,
            },
    {
        let m: WinMatrix = WinMatrix::of(records);
        Self::of(content, &m)
    }

    /// Every link, in cycle order.
    pub fn links(&self) -> (r: &Vec<Link>)
        ensures
            r@ == self.all(),
    {
        &self.links
    }

    fn count(&self, v: Verdict) -> (r: usize)
        ensures
            r == verdicts(self.all(), v),
    {
        let ghost p = |l: Link| l.verdict == v;
        let mut r: usize = 0;
        let mut i: usize = 0;
        while i < self.links.len()
            invariant
                i <= self.links@.len(),
                r <= i,
                p == (|l: Link| l.verdict == v),
                r == counting::count(self.links@.take(i as int), p),
            decreases self.links@.len() - i,
        {
            proof {
                counting::lemma_count_next(self.links@, p, i as int);
            }
            if self.links[i].verdict == v {
                r = r + 1;
            }
            i = i + 1;
        }
        assert(self.links@.take(i as int) =~= self.links@);
        r
    }

    /// Links whose predicted counter won its matchup.
    pub fn holding(&self) -> (r: usize)
        ensures
            r == verdicts(self.all(), Verdict::Holds),
    {
        self.count(Verdict::Holds)
    }

    /// Links whose predicted counter did not win.
    pub fn failing(&self) -> (r: usize)
        ensures
            r == verdicts(self.all(), Verdict::Fails),
    {
        self.count(Verdict::Fails)
    }

    /// Links with no decided match behind them.
    pub fn undefined(&self) -> (r: usize)
        ensures
            r == verdicts(self.all(), Verdict::Undefined),
    {
        self.count(Verdict::Undefined)
    }

    /// Links that could not be measured.
    pub fn gaps(&self) -> (r: usize)
        ensures
            r == verdicts(self.all(), Verdict::NoStrategy),
    {
        self.count(Verdict::NoStrategy)
    }

    /// Units of the cycle with no strategy massing them, in cycle order.
    pub fn missing_strategies(&self) -> (r: Vec<String>)
        ensures
            text::views(r@) == gaps_of(self.all()),
    {
        let mut out: Vec<String> = Vec::new();
        let mut i: usize = 0;
        assert(text::views(out@) =~= Seq::<Seq<char>>::empty());
        while i < self.links.len()
            invariant
                i <= self.links@.len(),
                text::views(out@) == gaps_of(self.links@.take(i as int)),
            decreases self.links@.len() - i,
        {
            assert(self.links@.take(i + 1).drop_last() =~= self.links@.take(i as int));
            let l: &Link = &self.links[i];
            if l.predator_strategy.is_none() {
                add_once(&mut out, l.predator.as_str());
            }
            if l.prey_strategy.is_none() {
                add_once(&mut out, l.prey.as_str());
            }
            i = i + 1;
        }
        assert(self.links@.take(i as int) =~= self.links@);
        out
    }

    /// Did the whole designed cycle reproduce? Only if every link holds.
    pub fn all_hold(&self) -> (r: bool)
        ensures
            r == (self.all().len() > 0 && forall|i: int|
                0 <= i < self.all().len() ==> (#[trigger] self.all()[i]).verdict
                    == Verdict::Holds),
    {
        proof {
            lemma_count_all(self.links@, |l: Link| l.verdict == Verdict::Holds);
        }
        self.links.len() > 0 && self.holding() == self.links.len()
    }

    /// The lines of the links, two spaces in front, and the count of those that
    /// hold. `rates` are the rates, as people read them, of the links that have
    /// one.
    pub open spec fn shown(&self, rates: Seq<Seq<char>>, n: int) -> Seq<char>
        decreases n,
    {
        if n <= 0 {
            Seq::empty()
        } else {
            self.shown(rates, n - 1) + "  "@ + self.all()[n - 1].shown(rates[n - 1]) + "\n"@
        }
    }

    /// The report as people read it. `rates` are the rates, as people read them,
    /// of the links that have one.
    pub fn table(&self, rates: &Vec<String>) -> (r: String)
        requires
            rates@.len() == self.all().len(),
        ensures
            r@ == self.shown(text::views(rates@), self.all().len() as int) + "  "@ + text::dec(
                verdicts(self.all(), Verdict::Holds),
            ) + " of "@ + text::dec(self.all().len()) + " predicted counters hold"@,
    {
        let mut s: String = String::new();
        let mut i: usize = 0;
        while i < self.links.len()
            invariant
                i <= self.links@.len(),
                rates@.len() == self.links@.len(),
                s@ == self.shown(text::views(rates@), i as int),
            decreases self.links@.len() - i,
        {
            s.append("  ");
            s.append(self.links[i].line(rates[i].as_str()).as_str());
            s.append("\n");
            i = i + 1;
        }
        s.append("  ");
        text::push_dec(&mut s, self.holding() as u64);
        s.append(" of ");
        text::push_dec(&mut s, self.links.len() as u64);
        s.append(" predicted counters hold");
        s
    }
}

fn add_once(out: &mut Vec<String>, id: &str)
    ensures
        text::views(final(out)@) == metrics::with_id(text::views(old(out)@), id@),
{
    if !lookup::lists(out, id) {
        let ghost before = out@;
        out.push(id.to_owned());
        assert(text::views(out@) =~= text::views(before).push(id@));
    }
}

proof fn lemma_count_all(links: Seq<Link>, p: spec_fn(Link) -> bool)
    ensures
        counting::count(links, p) == links.len() <==> forall|i: int|
            0 <= i < links.len() ==> p(#[trigger] links[i]),
    decreases links.len(),
{
    if links.len() > 0 {
        let rest = links.drop_last();
        lemma_count_all(rest, p);
        counting::lemma_count_bound(rest, p);
        assert forall|i: int| 0 <= i < rest.len() implies rest[i] == #[trigger] links[i] by {}
        if forall|i: int| 0 <= i < links.len() ==> p(#[trigger] links[i]) {
            assert forall|i: int| 0 <= i < rest.len() implies p(#[trigger] rest[i]) by {
                assert(p(links[i]));
            }
            assert(p(links[links.len() - 1]));
        }
        if counting::count(links, p) == links.len() {
            assert forall|i: int| 0 <= i < links.len() implies p(#[trigger] links[i]) by {
                if i < rest.len() {
                    assert(p(rest[i]));
                }
            }
        }
    }
}

// ---- laws -------------------------------------------------------------------

/// A closed cycle over all hunters: it starts with the first unit that has a
/// nemesis, each unit is followed by its prey, the last one's prey is the
/// first, no unit stands in it twice, and every unit with a nemesis stands in
/// it.
pub open spec fn is_cycle(c: &Content, cycle: Seq<Seq<char>>) -> bool {
    &&& cycle.len() > 0
    &&& Some(cycle[0]) == first_hunter(c, 0)
    &&& forall|i: int|
        0 <= i < cycle.len() - 1 ==> prey_of(c, #[trigger] cycle[i]) == Some(cycle[i + 1])
    &&& prey_of(c, cycle.last()) == Some(cycle[0])
    &&& lookup::distinct(cycle)
    &&& forall|k: int|
        0 <= k < c.units@.len() && (#[trigger] c.units@[k]).nemesis is Some ==> lookup::first_at(
            cycle,
            c.units@[k].id@,
            0,
        ) is Some
}

/// A cycle that is found is one, and no link leads nowhere.
pub proof fn found_cycle_is_closed(c: &Content, cycle: Seq<Seq<char>>)
    requires
        cycle_finding(c) == Finding::Cycle(cycle),
    ensures
        is_cycle(c, cycle),
        link_fault(c, 0) is None,
{
    lemma_faults_are_faults(c, 0);
    let start = first_hunter(c, 0)->0;
    lemma_hunter_known(c, 0);
    lemma_trail_fits(c, seq![start]);
    lemma_walk(c, seq![start], cycle);
}

/// A closed cycle over all hunters is found, if no link leads nowhere.
pub proof fn closed_cycle_is_found(c: &Content, cycle: Seq<Seq<char>>)
    requires
        link_fault(c, 0) is None,
        is_cycle(c, cycle),
    ensures
        cycle_finding(c) == Finding::Cycle(cycle),
{
    assert(cycle.take(1) =~= seq![cycle[0]]);
    lemma_walks_round(c, cycle, 1);
}

/// Where no two units share an id, a cycle of two units or more has no link that
/// leads nowhere, and so is found.
pub proof fn cycles_of_several_are_found(c: &Content, cycle: Seq<Seq<char>>)
    requires
        lookup::distinct(lookup::unit_ids(c.units@)),
        is_cycle(c, cycle),
        cycle.len() > 1,
    ensures
        cycle_finding(c) == Finding::Cycle(cycle),
{
    assert forall|k: int| 0 <= k < c.units@.len() && (
    #[trigger] c.units@[k]).nemesis is Some implies c.units@[k].nemesis->0@ != c.units@[k].id@
        && c.unit_pos(c.units@[k].nemesis->0@) is Some by {
        let ids = lookup::unit_ids(c.units@);
        let id = c.units@[k].id@;
        assert(ids[k] == id);
        lookup::index_id_index(ids, k);
        lookup::lemma_first_at(cycle, id, 0);
        let i = lookup::first_at(cycle, id, 0)->0;
        assert(cycle[i] == id);
        let next = if i < cycle.len() - 1 {
            i + 1
        } else {
            0
        };
        assert(prey_of(c, cycle[i]) == Some(cycle[next]));
        assert(i < next ==> cycle[i] != cycle[next]);
        assert(next < i ==> cycle[next] != cycle[i]);
        assert(prey_of(c, cycle[next]) is Some);
    }
    lemma_sound_links(c, 0);
    closed_cycle_is_found(c, cycle);
}

proof fn lemma_sound_links(c: &Content, k: int)
    requires
        0 <= k <= c.units@.len(),
        forall|i: int|
            0 <= i < c.units@.len() && (#[trigger] c.units@[i]).nemesis is Some
                ==> c.units@[i].nemesis->0@ != c.units@[i].id@ && c.unit_pos(
                c.units@[i].nemesis->0@,
            ) is Some,
    ensures
        link_fault(c, k) is None,
    decreases c.units@.len() - k,
{
    if k < c.units@.len() {
        lemma_sound_links(c, k + 1);
        assert(c.units@[k] == c.units@[k]);
    }
}

/// The walk goes once round a closed cycle.
proof fn lemma_walks_round(c: &Content, cycle: Seq<Seq<char>>, n: int)
    requires
        is_cycle(c, cycle),
        1 <= n <= cycle.len(),
    ensures
        walk_on(c, cycle.take(n)) == Finding::Cycle(cycle),
    decreases cycle.len() - n,
{
    let trail = cycle.take(n);
    assert forall|i: int| 0 <= i < cycle.len() implies c.unit_pos(#[trigger] cycle[i]) is Some by {
        if i == cycle.len() - 1 {
            assert(cycle.last() == cycle[i]);
        }
        assert(prey_of(c, cycle[i]) is Some);
    }
    lemma_trail_fits(c, cycle);
    assert(trail.last() == cycle[n - 1]);
    assert(trail[0] == cycle[0]);
    if n == cycle.len() {
        assert(trail =~= cycle);
        lemma_all_in(c.units@, cycle);
    } else {
        assert(prey_of(c, cycle[n - 1]) == Some(cycle[n]));
        assert(cycle[0] != cycle[n]);
        lookup::lemma_first_at(trail, cycle[n], 0);
        assert forall|i: int| 0 <= i < trail.len() implies #[trigger] trail[i] != cycle[n] by {
            assert(trail[i] == cycle[i]);
        }
        assert(trail.push(cycle[n]) =~= cycle.take(n + 1));
        lemma_walks_round(c, cycle, n + 1);
    }
}

proof fn lemma_all_in(units: Seq<UnitDef>, cycle: Seq<Seq<char>>)
    requires
        forall|k: int|
            0 <= k < units.len() && (#[trigger] units[k]).nemesis is Some ==> lookup::first_at(
                cycle,
                units[k].id@,
                0,
            ) is Some,
    ensures
        left_out(units, cycle).len() == 0,
    decreases units.len(),
{
    if units.len() > 0 {
        let rest = units.drop_last();
        assert forall|k: int|
            0 <= k < rest.len() && (#[trigger] rest[k]).nemesis is Some implies lookup::first_at(
            cycle,
            rest[k].id@,
            0,
        ) is Some by {
            assert(rest[k] == units[k]);
        }
        lemma_all_in(rest, cycle);
        assert(units.last() == units[units.len() - 1]);
    }
}

/// A link fault is never a cycle.
proof fn lemma_faults_are_faults(c: &Content, k: int)
    requires
        0 <= k <= c.units@.len(),
    ensures
        link_fault(c, k) matches Some(f) ==> f !is Cycle,
    decreases c.units@.len() - k,
{
    if k < c.units@.len() {
        lemma_faults_are_faults(c, k + 1);
    }
}

proof fn lemma_walk(c: &Content, trail: Seq<Seq<char>>, cycle: Seq<Seq<char>>)
    requires
        link_fault(c, 0) is None,
        0 < trail.len() <= c.units@.len(),
        lookup::distinct(trail),
        forall|i: int| 0 <= i < trail.len() ==> c.unit_pos(#[trigger] trail[i]) is Some,
        forall|i: int|
            0 <= i < trail.len() - 1 ==> prey_of(c, #[trigger] trail[i]) == Some(trail[i + 1]),
        walk_on(c, trail) == Finding::Cycle(cycle),
    ensures
        cycle.len() >= trail.len(),
        cycle[0] == trail[0],
        forall|i: int|
            0 <= i < cycle.len() - 1 ==> prey_of(c, #[trigger] cycle[i]) == Some(cycle[i + 1]),
        prey_of(c, cycle.last()) == Some(cycle[0]),
        lookup::distinct(cycle),
        forall|k: int|
            0 <= k < c.units@.len() && (#[trigger] c.units@[k]).nemesis is Some
                ==> lookup::first_at(cycle, c.units@[k].id@, 0) is Some,
    decreases c.units@.len() - trail.len(),
{
    let prey = prey_of(c, trail.last())->0;
    if prey == trail[0] {
        lemma_none_left(c.units@, trail);
    } else {
        let next = trail.push(prey);
        lemma_prey_known(c, trail.last());
        lookup::lemma_first_at(trail, prey, 0);
        assert forall|i: int, j: int| 0 <= i < j < next.len() implies #[trigger] next[i]
            != #[trigger] next[j] by {
            assert(next[i] == trail[i]);
            if j < trail.len() {
                assert(next[j] == trail[j]);
            }
        }
        assert forall|i: int| 0 <= i < next.len() implies c.unit_pos(#[trigger] next[i]) is Some by {
            if i < trail.len() {
                assert(next[i] == trail[i]);
            }
        }
        assert forall|i: int| 0 <= i < next.len() - 1 implies prey_of(c, #[trigger] next[i]) == Some(
            next[i + 1],
        ) by {
            assert(next[i] == trail[i]);
        }
        lemma_trail_fits(c, next);
        lemma_walk(c, next, cycle);
    }
}

proof fn lemma_none_left(units: Seq<UnitDef>, cycle: Seq<Seq<char>>)
    requires
        left_out(units, cycle).len() == 0,
    ensures
        forall|k: int|
            0 <= k < units.len() && (#[trigger] units[k]).nemesis is Some ==> lookup::first_at(
                cycle,
                units[k].id@,
                0,
            ) is Some,
    decreases units.len(),
{
    if units.len() > 0 {
        let rest = units.drop_last();
        lemma_none_left(rest, cycle);
        assert forall|k: int|
            0 <= k < units.len() && (#[trigger] units[k]).nemesis is Some implies lookup::first_at(
            cycle,
            units[k].id@,
            0,
        ) is Some by {
            if k < rest.len() {
                assert(rest[k] == units[k]);
            }
        }
    }
}

/// Every link has one verdict.
pub proof fn verdicts_add_up(links: Seq<Link>)
    ensures
        verdicts(links, Verdict::Holds) + verdicts(links, Verdict::Fails) + verdicts(
            links,
            Verdict::Undefined,
        ) + verdicts(links, Verdict::NoStrategy) == links.len(),
    decreases links.len(),
{
    if links.len() > 0 {
        verdicts_add_up(links.drop_last());
    }
}

/// The unit definition at `u` is the first that goes by `id`.
pub open spec fn goes_by(c: &Content, id: Seq<char>, u: int) -> bool {
    &&& 0 <= u < c.units@.len()
    &&& c.units@[u].id@ == id
    &&& forall|v: int| 0 <= v < u ==> (#[trigger] c.units@[v]).id@ != id
}

proof fn lemma_prey(c: &Content, id: Seq<char>, u: int)
    requires
        goes_by(c, id, u),
    ensures
        prey_of(c, id) == match c.units@[u].nemesis {
            Some(p) => Some(p@),
            None => None,
        },
{
    let ids = lookup::unit_ids(c.units@);
    lookup::lemma_first_at(ids, id, 0);
    assert forall|v: int| 0 <= v < ids.len() implies ids[v] == (#[trigger] c.units@[v]).id@ by {}
    assert(ids[u] == id);
    let w = c.unit_pos(id)->0;
    assert(ids[w] == c.units@[w].id@);
}

/// In a cycle that is found, every unit is followed by its nemesis, and the last
/// by the first.
pub proof fn a_cycle_follows_the_nemesis(c: &Content, cycle: Seq<Seq<char>>, i: int, u: int)
    requires
        cycle_finding(c) == Finding::Cycle(cycle),
        0 <= i < cycle.len(),
        goes_by(c, cycle[i], u),
    ensures
        c.units@[u].nemesis matches Some(p) && p@ == cycle[if i + 1 < cycle.len() {
            i + 1
        } else {
            0
        }],
{
    found_cycle_is_closed(c, cycle);
    lemma_prey(c, cycle[i], u);
}

/// Every unit that has a nemesis stands in the cycle that is found, its nemesis
/// exists, and nothing is its own.
pub proof fn every_hunter_is_in_the_cycle(c: &Content, cycle: Seq<Seq<char>>, k: int)
    requires
        cycle_finding(c) == Finding::Cycle(cycle),
        0 <= k < c.units@.len(),
        c.units@[k].nemesis is Some,
    ensures
        cycle.contains(c.units@[k].id@),
        c.units@[k].nemesis->0@ != c.units@[k].id@,
        exists|v: int|
            0 <= v < c.units@.len() && (#[trigger] c.units@[v]).id@ == c.units@[k].nemesis->0@,
{
    found_cycle_is_closed(c, cycle);
    let id = c.units@[k].id@;
    lookup::lemma_first_at(cycle, id, 0);
    let i = lookup::first_at(cycle, id, 0)->0;
    assert(cycle[i] == id);
    lemma_no_fault(c, 0, k);
    let prey = c.units@[k].nemesis->0@;
    let ids = lookup::unit_ids(c.units@);
    lookup::lemma_first_at(ids, prey, 0);
    let v = c.unit_pos(prey)->0;
    assert(ids[v] == c.units@[v].id@);
}

proof fn lemma_no_fault(c: &Content, k: int, u: int)
    requires
        0 <= k <= u < c.units@.len(),
        link_fault(c, k) is None,
        c.units@[u].nemesis is Some,
    ensures
        c.units@[u].nemesis->0@ != c.units@[u].id@,
        c.unit_pos(c.units@[u].nemesis->0@) is Some,
    decreases u - k,
{
    if k < u {
        lemma_no_fault(c, k + 1, u);
    }
}

proof fn lemma_massing(c: &Content, unit: Seq<char>, k: int)
    requires
        0 <= k <= c.strategies@.len(),
        forall|i: int| 0 <= i < k ==> !masses(#[trigger] c.strategies@[i], unit),
    ensures
        match massing(c, unit, k) {
            Some(s) => 0 <= s < c.strategies@.len() && masses(c.strategies@[s], unit) && forall|
                i: int,
            |
                0 <= i < s ==> !masses(#[trigger] c.strategies@[i], unit),
            None => forall|i: int|
                0 <= i < c.strategies@.len() ==> !masses(#[trigger] c.strategies@[i], unit),
        },
    decreases c.strategies@.len() - k,
{
    if k < c.strategies@.len() && !masses(c.strategies@[k], unit) {
        lemma_massing(c, unit, k + 1);
    }
}

/// A unit is probed by the first strategy that builds it and nothing else.
pub proof fn a_probe_builds_one_unit(c: &Content, unit: Seq<char>, s: int)
    requires
        0 <= s < c.strategies@.len(),
        c.strategies@[s].army@.len() > 0,
        forall|k: int|
            0 <= k < c.strategies@[s].army@.len() ==> (
            #[trigger] c.strategies@[s].army@[k]).unit@ == unit,
        forall|i: int| 0 <= i < s ==> !masses(#[trigger] c.strategies@[i], unit),
    ensures
        probe(c, unit) == Some(c.strategies@[s].id@),
{
    lemma_massing(c, unit, 0);
    assert(masses(c.strategies@[s], unit));
    let x = massing(c, unit, 0)->0;
    if x < s {
        assert(!masses(c.strategies@[x], unit));
    }
}

/// A link holds exactly if the predator's strategy won more than half of what was
/// decided against its prey's; it fails if it won half or less, and says nothing
/// where nothing was decided or one of the two has no strategy.
pub proof fn a_link_holds_above_one_half(
    l: Link,
    c: &Content,
    m: &WinMatrix,
    predator: Seq<char>,
    prey: Seq<char>,
    i: int,
    j: int,
)
    requires
        l.reads(c, m, predator, prey),
        lookup::distinct(m.names()),
        0 <= i < m.names().len(),
        0 <= j < m.names().len(),
        probe(c, predator) == Some(m.names()[i]),
        probe(c, prey) == Some(m.names()[j]),
    ensures
        ({
            let cell = m.at(i, j);
            &&& l.n_decided == cell.n_decided
            &&& l.n_timeout == cell.n_timeout
            &&& l.verdict == Verdict::Holds <==> cell.n_decided > 0 && cell.half_wins
                > cell.n_decided
            &&& l.verdict == Verdict::Fails <==> cell.n_decided > 0 && cell.half_wins
                <= cell.n_decided
            &&& l.verdict == Verdict::Undefined <==> cell.n_decided == 0
        }),
{
    lookup::index_id_index(m.names(), i);
    lookup::index_id_index(m.names(), j);
}

/// The hunters that a partial cycle misses are those units with a nemesis that do
/// not stand in it, in the order of the content.
pub proof fn what_is_missing_is_left_out(units: Seq<UnitDef>, cycle: Seq<Seq<char>>)
    ensures
        left_out(units, cycle) == units.filter(
            |u: UnitDef| u.nemesis is Some && !cycle.contains(u.id@),
        ).map_values(|u: UnitDef| u.id@),
    decreases units.len(),
{
    reveal(Seq::filter);
    let p = |u: UnitDef| u.nemesis is Some && !cycle.contains(u.id@);
    let f = |u: UnitDef| u.id@;
    if units.len() > 0 {
        what_is_missing_is_left_out(units.drop_last(), cycle);
        let u = units.last();
        let before = units.drop_last().filter(p);
        lookup::lemma_first_at(cycle, u.id@, 0);
        match lookup::first_at(cycle, u.id@, 0) {
            Some(i) => {
                assert(cycle[i] == u.id@);
            },
            None => {
                if cycle.contains(u.id@) {
                    let j = choose|j: int| 0 <= j < cycle.len() && cycle[j] == u.id@;
                    assert(cycle[j] != u.id@);
                }
            },
        }
        if p(u) {
            assert(units.filter(p) == before.push(u));
            assert(units.filter(p).map_values(f) =~= before.map_values(f).push(u.id@));
        } else {
            assert(units.filter(p) == before);
        }
    } else {
        assert(units.filter(p).map_values(f) =~= left_out(units, cycle));
    }
}

/// A link that is told to lead nowhere does: its unit hunts itself, or what does
/// not exist.
pub proof fn a_fault_that_is_told_is_one(c: &Content, k: int)
    requires
        0 <= k <= c.units@.len(),
    ensures
        match link_fault(c, k) {
            Some(Finding::SelfNemesis(id)) => exists|u: int|
                k <= u < c.units@.len() && (#[trigger] c.units@[u]).id@ == id
                    && c.units@[u].nemesis is Some && c.units@[u].nemesis->0@ == id,
            Some(Finding::UnknownPrey(id, prey)) => (exists|u: int|
                k <= u < c.units@.len() && (#[trigger] c.units@[u]).id@ == id
                    && c.units@[u].nemesis is Some && c.units@[u].nemesis->0@ == prey) && forall|
                v: int,
            |
                0 <= v < c.units@.len() ==> (#[trigger] c.units@[v]).id@ != prey,
            Some(_) => false,
            None => true,
        },
    decreases c.units@.len() - k,
{
    if k < c.units@.len() {
        a_fault_that_is_told_is_one(c, k + 1);
        let u = c.units@[k];
        match u.nemesis {
            Some(p) => {
                let ids = lookup::unit_ids(c.units@);
                lookup::lemma_first_at(ids, p@, 0);
                assert forall|v: int| 0 <= v < ids.len() implies ids[v] == (
                #[trigger] c.units@[v]).id@ by {}
                if c.unit_pos(p@) is None {
                    assert forall|v: int| 0 <= v < c.units@.len() implies (
                    #[trigger] c.units@[v]).id@ != p@ by {
                        assert(ids[v] != p@);
                    }
                }
            },
            None => {},
        }
    }
}

/// A unit is told as a gap exactly if a link names it and no strategy builds it.
pub proof fn gaps_are_units_without_a_strategy(links: Seq<Link>, id: Seq<char>)
    ensures
        gaps_of(links).contains(id) <==> exists|k: int|
            0 <= k < links.len() && (((#[trigger] links[k]).predator@ == id
                && links[k].predator_strategy is None) || (links[k].prey@ == id
                && links[k].prey_strategy is None)),
    decreases links.len(),
{
    if links.len() > 0 {
        let rest = links.drop_last();
        gaps_are_units_without_a_strategy(rest, id);
        let l = links.last();
        let before = gaps_of(rest);
        let mid = note_gap(before, l.predator@, l.predator_strategy);
        metrics::lemma_with_id(before, l.predator@, id);
        metrics::lemma_with_id(mid, l.prey@, id);
        assert(links[links.len() - 1] == l);
        if before.contains(id) {
            let k = choose|k: int|
                0 <= k < rest.len() && (((#[trigger] rest[k]).predator@ == id
                    && rest[k].predator_strategy is None) || (rest[k].prey@ == id
                    && rest[k].prey_strategy is None));
            assert(links[k] == rest[k]);
        }
        assert forall|k: int| 0 <= k < rest.len() implies #[trigger] rest[k] == links[k] by {}
        if exists|k: int|
            0 <= k < links.len() && (((#[trigger] links[k]).predator@ == id
                && links[k].predator_strategy is None) || (links[k].prey@ == id
                && links[k].prey_strategy is None)) {
            let k = choose|k: int|
                0 <= k < links.len() && (((#[trigger] links[k]).predator@ == id
                    && links[k].predator_strategy is None) || (links[k].prey@ == id
                    && links[k].prey_strategy is None));
            if k < rest.len() {
                assert(rest[k] == links[k]);
            }
        }
    }
}

} // verus!
