//! Balance metrics: what a set of match records says.
//!
//! Both slot orders aggregate: off the diagonal a cell counts every record in
//! which the row strategy met the column strategy, from either slot. A win is
//! two halves, a mutual loss one half to each side; a timeout is undecided and
//! counted on its own. A cell in which nothing was decided has no rate.

use vstd::arithmetic::power2::lemma_pow2_adds;
use vstd::arithmetic::power2::lemma_pow2_pos;
use vstd::arithmetic::power2::lemma_pow2_unfold;
use vstd::arithmetic::power2::pow2;
use vstd::multiset::Multiset;
use vstd::prelude::*;

use crate::batch::{MatchRecord, MatchResult};
use crate::big::Big;
use crate::counting;
use crate::float::F64;
use crate::ratio;
use crate::sim::content::lookup;
use crate::sim::spatial::Faction;
use crate::text;

verus! {

// ---- what a record says ---------------------------------------------------------

/// What one record adds to a cell.
pub enum Share {
    /// The record is not of this pair.
    Out,
    /// The match was decided: half-wins of the row side.
    Halves(nat),
    /// The match timed out.
    Undecided,
}

/// What a result is worth to one slot.
pub open spec fn worth(result: MatchResult, slot: Faction) -> Share {
    match result {
        MatchResult::Decided(f) => Share::Halves(if f == slot { 2 } else { 0 }),
        MatchResult::MutualLoss => Share::Halves(1),
        MatchResult::Timeout => Share::Undecided,
    }
}

/// What a record adds to the cell of `row` against `col`. A mirror is credited
/// to slot A.
pub open spec fn share(r: MatchRecord, row: Seq<char>, col: Seq<char>) -> Share {
    if r.strategies@[0]@ == row && r.strategies@[1]@ == col {
        worth(r.result, Faction::A)
    } else if r.strategies@[0]@ == col && r.strategies@[1]@ == row {
        worth(r.result, Faction::B)
    } else {
        Share::Out
    }
}

/// The half-wins of the row side over the records.
pub open spec fn half_wins_of(records: Seq<MatchRecord>, row: Seq<char>, col: Seq<char>) -> nat
    decreases records.len(),
{
    if records.len() == 0 {
        0
    } else {
        half_wins_of(records.drop_last(), row, col) + match share(records.last(), row, col) {
            Share::Halves(h) => h,
            _ => 0,
        }
    }
}

/// The decided matches of the pair.
pub open spec fn decided_of(records: Seq<MatchRecord>, row: Seq<char>, col: Seq<char>) -> nat
    decreases records.len(),
{
    if records.len() == 0 {
        0
    } else {
        decided_of(records.drop_last(), row, col) + if share(records.last(), row, col) is Halves {
            1nat
        } else {
            0nat
        }
    }
}

/// The timed-out matches of the pair.
pub open spec fn timeouts_of(records: Seq<MatchRecord>, row: Seq<char>, col: Seq<char>) -> nat
    decreases records.len(),
{
    if records.len() == 0 {
        0
    } else {
        timeouts_of(records.drop_last(), row, col) + if share(records.last(), row, col) is Undecided {
            1nat
        } else {
            0nat
        }
    }
}

/// One cell of a [`WinMatrix`]: the row strategy's record against the column
/// strategy. On the diagonal it is slot A's share of the mirror.
#[derive(Clone, Copy, Debug, PartialEq, Eq, Structural)]
pub struct Cell {
    /// The row side's wins, in halves.
    pub half_wins: u32,
    /// Matches the sim decided: the denominator of the rate.
    pub n_decided: u32,
    /// Matches that ran into the tick cap.
    pub n_timeout: u32,
}

impl Cell {
    /// The cell counts the records of the pair.
    pub open spec fn counts(&self, records: Seq<MatchRecord>, row: Seq<char>, col: Seq<char>) -> bool {
        &&& self.half_wins == half_wins_of(records, row, col)
        &&& self.n_decided == decided_of(records, row, col)
        &&& self.n_timeout == timeouts_of(records, row, col)
    }

    /// No side has more than all the wins, and the counters have room.
    pub open spec fn sane(&self) -> bool {
        self.half_wins <= 2 * self.n_decided <= u32::MAX
    }

    /// The row side's win rate over decided matches, or `None` if nothing was
    /// decided.
    pub fn rate(&self) -> (r: Option<F64>)
        requires
            2 * self.n_decided <= u32::MAX,
        ensures
            r is Some == (self.n_decided > 0),
            r matches Some(f) ==> f.bits == ratio::bits64(
                self.half_wins as nat,
                2 * self.n_decided as nat,
            ),
    {
        if self.n_decided > 0 {
            Some(ratio::ratio64(self.half_wins as u64, 2 * self.n_decided as u64))
        } else {
            None
        }
    }

    /// The row side's wins as a number of matches (a mutual loss is one half).
    pub fn wins(&self) -> (r: F64)
        ensures
            r.bits == ratio::bits64(self.half_wins as nat, 2),
    {
        ratio::ratio64(self.half_wins as u64, 2)
    }

    /// Every match this cell counts, decided or not.
    pub fn played(&self) -> (r: u32)
        requires
            self.n_decided + self.n_timeout <= u32::MAX,
        ensures
            r == self.n_decided + self.n_timeout,
    {
        self.n_decided + self.n_timeout
    }
}

// ---- the matrix ---------------------------------------------------------------

/// `id` at the end of the list, unless it stands there already.
pub open spec fn with_id(ids: Seq<Seq<char>>, id: Seq<char>) -> Seq<Seq<char>> {
    if lookup::first_at(ids, id, 0) is Some {
        ids
    } else {
        ids.push(id)
    }
}

/// The strategies of the records in order of first appearance, slot A before
/// slot B.
pub open spec fn appearing(records: Seq<MatchRecord>) -> Seq<Seq<char>>
    decreases records.len(),
{
    if records.len() == 0 {
        Seq::empty()
    } else {
        let before = appearing(records.drop_last());
        let r = records.last();
        with_id(with_id(before, r.strategies@[0]@), r.strategies@[1]@)
    }
}

/// The win-rate matrix of a set of match records.
#[derive(Clone, Debug)]
pub struct WinMatrix {
    ids: Vec<String>,
    cells: Vec<Cell>,
}

impl Default for WinMatrix {
    /// The empty matrix.
    fn default() -> (r: Self)
        ensures
            r.wf(),
            r.names() == Seq::<Seq<char>>::empty(),
    {
        let r = WinMatrix { ids: Vec::new(), cells: Vec::new() };
        assert(text::views(r.ids@) =~= Seq::<Seq<char>>::empty());
        assert(0 * 0 == 0);
        r
    }
}

proof fn lemma_square(i: int, j: int, n: int)
    requires
        0 <= i < n,
        0 <= j < n,
    ensures
        0 <= i * n + j < n * n,
        0 <= i * n < n * n,
        (i * n + j) / n == i,
        (i * n + j) % n == j,
{
    assert(0 <= i * n + j < n * n && 0 <= i * n < n * n) by (nonlinear_arith)
        requires
            0 <= i < n,
            0 <= j < n,
    ;
    vstd::arithmetic::div_mod::lemma_fundamental_div_mod_converse(i * n + j, n, i, j);
}

impl WinMatrix {
    /// The strategy of each row and column.
    pub closed spec fn names(&self) -> Seq<Seq<char>> {
        text::views(self.ids@)
    }

    /// The cell of row `i` and column `j`.
    pub closed spec fn at(&self, i: int, j: int) -> Cell {
        self.cells@[i * self.ids@.len() + j]
    }

    /// No strategy twice, a cell for every pair, every cell sane.
    pub closed spec fn wf(&self) -> bool {
        &&& lookup::distinct(self.names())
        &&& self.cells@.len() == self.ids@.len() * self.ids@.len()
        &&& forall|k: int| 0 <= k < self.cells@.len() ==> (#[trigger] self.cells@[k]).sane()
        &&& self.upper(self.cells@.len(), false) + self.upper(self.cells@.len(), true) <= u32::MAX
    }

    /// The decided (or timed-out) matches of the first `p` cells on or above
    /// the diagonal, row by row.
    pub open spec fn upper(&self, p: nat, timeouts: bool) -> nat
        decreases p,
    {
        if p == 0 {
            0
        } else {
            let n = self.names().len() as int;
            let (i, j) = ((p - 1) / n, (p - 1) % n);
            self.upper((p - 1) as nat, timeouts) + if i > j {
                0
            } else if timeouts {
                self.at(i, j).n_timeout as nat
            } else {
                self.at(i, j).n_decided as nat
            }
        }
    }

    /// The matches on or above the diagonal: every record once.
    pub open spec fn upper_total(&self, timeouts: bool) -> nat {
        self.upper((self.names().len() * self.names().len()) as nat, timeouts)
    }

    /// The matrix of these records.
    pub open spec fn describes(&self, records: Seq<MatchRecord>) -> bool {
        &&& self.names() == appearing(records)
        &&& forall|i: int, j: int|
            0 <= i < self.names().len() && 0 <= j < self.names().len() ==> (#[trigger] self.at(
                i,
                j,
            )).counts(records, self.names()[i], self.names()[j])
    }

    /// Build the matrix from records.
    pub fn of(records: &[MatchRecord]) -> (r: Self)
        requires
            2 * records@.len() <= u32::MAX,
            appearing(records@).len() * appearing(records@).len() <= usize::MAX,
        ensures
            r.wf(),
            r.describes(records@),
    {
        let ids: Vec<String> = collect_ids(records);
        let ghost names = text::views(ids@);
        let n: usize = ids.len();
        assert(names.len() == n);
        assert(0 <= n * n) by (nonlinear_arith);
        let mut cells: Vec<Cell> = Vec::new();
        let mut i: usize = 0;
        while i < n * n
            invariant
                i <= n * n <= usize::MAX,
                cells@.len() == i,
                forall|k: int|
                    0 <= k < i ==> #[trigger] cells@[k] == (Cell {
                        half_wins: 0,
                        n_decided: 0,
                        n_timeout: 0,
                    }),
            decreases n * n - i,
        {
            cells.push(Cell { half_wins: 0, n_decided: 0, n_timeout: 0 });
            i = i + 1;
        }
        let mut k: usize = 0;
        while k < records.len()
            invariant
                k <= records@.len(),
                2 * records@.len() <= u32::MAX,
                n == ids@.len(),
                names == text::views(ids@),
                names == appearing(records@),
                lookup::distinct(names),
                cells@.len() == n * n <= usize::MAX,
                forall|p: int|
                    0 <= p < cells@.len() ==> (#[trigger] cells@[p]).counts(
                        records@.take(k as int),
                        names[p / n as int],
                        names[p % n as int],
                    ),
            decreases records@.len() - k,
        {
            let r: &MatchRecord = &records[k];
            proof {
                lemma_appears(records@, k as int);
            }
            let a: usize = position(&ids, r.strategies[0].as_str());
            let b: usize = position(&ids, r.strategies[1].as_str());
            let ghost before = cells@;
            proof {
                lemma_square(a as int, b as int, n as int);
                lemma_square(b as int, a as int, n as int);
                lemma_cell_bounds(records@, k as int);
            }
            let p: usize = a * n + b;
            let q: usize = b * n + a;
            let (for_a, for_b): (Option<u32>, Option<u32>) = match r.result {
                MatchResult::Decided(Faction::A) => (Some(2), Some(0)),
                MatchResult::Decided(Faction::B) => (Some(0), Some(2)),
                MatchResult::MutualLoss => (Some(1), Some(1)),
                MatchResult::Timeout => (None, None),
            };
            assert(before[p as int].counts(
                records@.take(k as int),
                names[a as int],
                names[b as int],
            ));
            assert(before[q as int].counts(
                records@.take(k as int),
                names[b as int],
                names[a as int],
            ));
            let first: Cell = credited(cells[p], for_a);
            cells.set(p, first);
            if a != b {
                assert(p != q) by {
                    if p == q {
                        assert(p as int / n as int == a as int);
                    }
                }
                let second: Cell = credited(cells[q], for_b);
                cells.set(q, second);
            }
            proof {
                let next = records@.take(k + 1);
                assert(next.drop_last() =~= records@.take(k as int));
                assert forall|c: int| 0 <= c < cells@.len() implies (#[trigger] cells@[c]).counts(
                    next,
                    names[c / n as int],
                    names[c % n as int],
                ) by {
                    let row = c / n as int;
                    let col = c % n as int;
                    lemma_grid(c, n as int);
                    assert(before[c].counts(records@.take(k as int), names[row], names[col]));
                    lemma_names(names, row, a as int);
                    lemma_names(names, row, b as int);
                    lemma_names(names, col, a as int);
                    lemma_names(names, col, b as int);
                }
            }
            k = k + 1;
        }
        assert(records@.take(k as int) =~= records@);
        let m = WinMatrix { ids, cells };
        proof {
            assert forall|i: int, j: int|
                0 <= i < m.names().len() && 0 <= j < m.names().len() implies (#[trigger] m.at(
                i,
                j,
            )).counts(records@, m.names()[i], m.names()[j]) by {
                lemma_square(i, j, n as int);
                assert(m.cells@[i * n + j].counts(
                    records@,
                    names[(i * n + j) / n as int],
                    names[(i * n + j) % n as int],
                ));
            }
            assert forall|c: int| 0 <= c < m.cells@.len() implies (#[trigger] m.cells@[c]).sane() by {
                let row = names[c / n as int];
                let col = names[c % n as int];
                assert(m.cells@[c].counts(records@, row, col));
                lemma_counts_fit(records@, row, col);
            }
            lemma_upper_records(&m, records@, records@, false);
            lemma_upper_records(&m, records@, records@, true);
            assert forall|r: MatchRecord| !(#[trigger] ended(false)(r) && ended(true)(r)) by {}
            counting::lemma_count_split(
                records@,
                ended(false),
                ended(true),
                |r: MatchRecord| true,
            );
            counting::lemma_count_bound(records@, |r: MatchRecord| true);
        }
        m
    }

    /// The defined cells of row `i` off the diagonal among the first `j`
    /// columns.
    pub open spec fn row_cells(&self, i: int, j: int) -> Seq<Cell>
        decreases j,
    {
        if j <= 0 {
            Seq::empty()
        } else {
            let before = self.row_cells(i, j - 1);
            if j - 1 != i && 0 <= i < self.names().len() && self.at(i, j - 1).n_decided > 0 {
                before.push(self.at(i, j - 1))
            } else {
                before
            }
        }
    }

    /// Row `i`'s overall strength: the mean of its defined off-diagonal rates,
    /// computed exactly and rounded once. Out of range is an undefined mean
    /// over zero cells.
    pub fn row_mean(&self, i: usize) -> (r: RowMean)
        requires
            self.wf(),
        ensures
            r.cells == self.row_cells(i as int, self.names().len() as int).len(),
            r.mean is Some == (r.cells > 0),
            r.mean matches Some(f) ==> f.bits == mean_bits(
                self.row_cells(i as int, self.names().len() as int),
            ),
    {
        let n: usize = self.ids.len();
        let mut cells: Vec<Cell> = Vec::new();
        let mut j: usize = 0;
        while j < n
            invariant
                self.wf(),
                j <= n,
                n == self.names().len(),
                cells@ == self.row_cells(i as int, j as int),
                forall|k: int|
                    0 <= k < cells@.len() ==> (#[trigger] cells@[k]).sane() && cells@[k].n_decided
                        > 0,
            decreases n - j,
        {
            if j != i {
                match self.cell(i, j) {
                    Some(c) => {
                        if c.n_decided > 0 {
                            cells.push(*c);
                        }
                    },
                    None => {},
                }
            }
            j = j + 1;
        }
        RowMean { mean: exact_mean(&cells), cells: cells.len() }
    }

    /// Every row's mean, labelled, in matrix order.
    pub fn row_means(&self) -> (r: Vec<(String, RowMean)>)
        requires
            self.wf(),
        ensures
            r@.len() == self.names().len(),
            forall|i: int|
                0 <= i < r@.len() ==> {
                    let (id, m) = #[trigger] r@[i];
                    let cells = self.row_cells(i, self.names().len() as int);
                    &&& id@ == self.names()[i]
                    &&& m.cells == cells.len()
                    &&& m.mean is Some == (m.cells > 0)
                    &&& m.mean matches Some(f) ==> f.bits == mean_bits(cells)
                },
    {
        let mut r: Vec<(String, RowMean)> = Vec::new();
        let mut i: usize = 0;
        while i < self.ids.len()
            invariant
                self.wf(),
                i <= self.ids@.len(),
                r@.len() == i,
                forall|k: int|
                    0 <= k < r@.len() ==> {
                        let (id, m) = #[trigger] r@[k];
                        let cells = self.row_cells(k, self.names().len() as int);
                        &&& id@ == self.names()[k]
                        &&& m.cells == cells.len()
                        &&& m.mean is Some == (m.cells > 0)
                        &&& m.mean matches Some(f) ==> f.bits == mean_bits(cells)
                    },
            decreases self.ids@.len() - i,
        {
            let m: RowMean = self.row_mean(i);
            r.push((self.ids[i].clone(), m));
            i = i + 1;
        }
        r
    }

    /// Cells with a rate, diagonal included.
    pub fn defined_cells(&self) -> (r: usize)
        requires
            self.wf(),
        ensures
            r == self.defined((self.names().len() * self.names().len()) as nat),
    {
        let n: usize = self.ids.len();
        let mut r: usize = 0;
        let mut p: usize = 0;
        while p < self.cells.len()
            invariant
                self.wf(),
                n == self.ids@.len(),
                p <= self.cells@.len(),
                r <= p,
                r == self.defined(p as nat),
            decreases self.cells@.len() - p,
        {
            proof {
                lemma_grid(p as int, n as int);
            }
            if self.cells[p].n_decided > 0 {
                r = r + 1;
            }
            p = p + 1;
        }
        r
    }

    /// How many of the first `p` cells, row by row, have a rate.
    pub open spec fn defined(&self, p: nat) -> nat
        decreases p,
    {
        if p == 0 {
            0
        } else {
            let n = self.names().len() as int;
            self.defined((p - 1) as nat) + if self.at((p - 1) / n, (p - 1) % n).n_decided > 0 {
                1nat
            } else {
                0nat
            }
        }
    }

    /// Decided records the matrix was built from, each counted once.
    pub fn decided(&self) -> (r: u32)
        requires
            self.wf(),
        ensures
            r == self.upper_total(false),
    {
        self.per_record(false)
    }

    /// Timed-out records the matrix was built from.
    pub fn timeouts(&self) -> (r: u32)
        requires
            self.wf(),
        ensures
            r == self.upper_total(true),
    {
        self.per_record(true)
    }

    fn per_record(&self, timeouts: bool) -> (r: u32)
        requires
            self.wf(),
        ensures
            r == self.upper_total(timeouts),
    {
        let n: usize = self.ids.len();
        let mut sum: u32 = 0;
        let mut p: usize = 0;
        while p < self.cells.len()
            invariant
                self.wf(),
                n == self.ids@.len(),
                p <= self.cells@.len(),
                sum == self.upper(p as nat, timeouts),
            decreases self.cells@.len() - p,
        {
            proof {
                lemma_grid(p as int, n as int);
                lemma_upper_grows(self, (p + 1) as nat, self.cells@.len(), timeouts);
            }
            if p / n <= p % n {
                let c: Cell = self.cells[p];
                let add: u32 = if timeouts {
                    c.n_timeout
                } else {
                    c.n_decided
                };
                sum = sum + add;
            }
            p = p + 1;
        }
        sum
    }

    /// Strategy ids, in row (and column) order.
    pub fn ids(&self) -> (r: &Vec<String>)
        ensures
            text::views(r@) == self.names(),
    {
        &self.ids
    }

    pub fn len(&self) -> (r: usize)
        ensures
            r == self.names().len(),
    {
        self.ids.len()
    }

    pub fn is_empty(&self) -> (r: bool)
        ensures
            r == (self.names().len() == 0),
    {
        self.ids.len() == 0
    }

    /// The row and column of a strategy, if any record named it.
    pub fn index(&self, id: &str) -> (r: Option<usize>)
        ensures
            r is Some == lookup::first_at(self.names(), id@, 0) is Some,
            r matches Some(i) ==> lookup::first_at(self.names(), id@, 0) == Some(i as int) && i
                < self.names().len(),
    {
        let ghost all = self.names();
        let mut k: usize = 0;
        while k < self.ids.len()
            invariant
                k <= self.ids@.len(),
                all == self.names(),
                lookup::first_at(all, id@, 0) == lookup::first_at(all, id@, k as int),
            decreases self.ids@.len() - k,
        {
            if text::same(self.ids[k].as_str(), id) {
                return Some(k);
            }
            k = k + 1;
        }
        None
    }

    /// Cell `(i, j)`, or `None` if either index is out of range.
    pub fn cell(&self, i: usize, j: usize) -> (r: Option<&Cell>)
        requires
            self.wf(),
        ensures
            r is Some == (i < self.names().len() && j < self.names().len()),
            r matches Some(c) ==> *c == self.at(i as int, j as int) && c.sane(),
    {
        let n: usize = self.ids.len();
        if i < n && j < n {
            proof {
                lemma_square(i as int, j as int, n as int);
            }
            let total: usize = self.cells.len();
            assert(i * n + j < total);
            Some(&self.cells[i * n + j])
        } else {
            None
        }
    }

    /// The cell of two strategies, if records named both.
    pub open spec fn found(&self, row: Seq<char>, col: Seq<char>) -> Option<Cell> {
        match (lookup::first_at(self.names(), row, 0), lookup::first_at(self.names(), col, 0)) {
            (Some(i), Some(j)) => Some(self.at(i, j)),
            _ => None,
        }
    }

    /// Cell `(row, col)` by strategy id.
    pub fn get(&self, row: &str, col: &str) -> (r: Option<&Cell>)
        requires
            self.wf(),
        ensures
            r is Some == self.found(row@, col@) is Some,
            r matches Some(c) ==> self.found(row@, col@) == Some(*c) && c.sane(),
    {
        match (self.index(row), self.index(col)) {
            (Some(i), Some(j)) => self.cell(i, j),
            _ => None,
        }
    }

    /// The win rate of row `i` over column `j`: `None` if out of range or
    /// undecided.
    pub fn rate(&self, i: usize, j: usize) -> (r: Option<F64>)
        requires
            self.wf(),
        ensures
            r is Some == (i < self.names().len() && j < self.names().len() && self.at(
                i as int,
                j as int,
            ).n_decided > 0),
            r matches Some(f) ==> f.bits == ratio::bits64(
                self.at(i as int, j as int).half_wins as nat,
                2 * self.at(i as int, j as int).n_decided as nat,
            ),
    {
        match self.cell(i, j) {
            Some(c) => c.rate(),
            None => None,
        }
    }

    /// The mirror reading for strategy `i`: slot A's share of its decided
    /// mirror matches.
    pub fn diagonal(&self, i: usize) -> (r: Option<F64>)
        requires
            self.wf(),
        ensures
            r is Some == (i < self.names().len() && self.at(i as int, i as int).n_decided > 0),
            r matches Some(f) ==> f.bits == ratio::bits64(
                self.at(i as int, i as int).half_wins as nat,
                2 * self.at(i as int, i as int).n_decided as nat,
            ),
    {
        self.rate(i, i)
    }
}

/// The ids in order of first appearance.
fn collect_ids(records: &[MatchRecord]) -> (ids: Vec<String>)
    ensures
        text::views(ids@) == appearing(records@),
        lookup::distinct(text::views(ids@)),
{
    let mut ids: Vec<String> = Vec::new();
    let mut k: usize = 0;
    assert(text::views(ids@) =~= Seq::<Seq<char>>::empty());
    while k < records.len()
        invariant
            k <= records@.len(),
            text::views(ids@) == appearing(records@.take(k as int)),
            lookup::distinct(text::views(ids@)),
        decreases records@.len() - k,
    {
        assert(records@.take(k + 1).drop_last() =~= records@.take(k as int));
        note_id(&mut ids, records[k].strategies[0].as_str());
        note_id(&mut ids, records[k].strategies[1].as_str());
        k = k + 1;
    }
    assert(records@.take(k as int) =~= records@);
    ids
}

fn note_id(ids: &mut Vec<String>, id: &str)
    requires
        lookup::distinct(text::views(old(ids)@)),
    ensures
        text::views(final(ids)@) == with_id(text::views(old(ids)@), id@),
        lookup::distinct(text::views(final(ids)@)),
{
    let known: bool = lookup::lists(ids, id);
    if !known {
        proof {
            lookup::lemma_first_at(text::views(ids@), id@, 0);
        }
        let ghost before = ids@;
        ids.push(id.to_owned());
        proof {
            let after = text::views(ids@);
            assert(after =~= text::views(before).push(id@));
            assert forall|i: int, j: int| 0 <= i < j < after.len() implies #[trigger] after[i]
                != #[trigger] after[j] by {
                assert(text::views(before)[i] == after[i]);
                if j < before.len() {
                    assert(text::views(before)[j] == after[j]);
                }
            }
        }
    }
}

/// Where an id that is listed stands.
fn position(ids: &Vec<String>, id: &str) -> (r: usize)
    requires
        lookup::first_at(text::views(ids@), id@, 0) is Some,
    ensures
        r < ids@.len(),
        text::views(ids@)[r as int] == id@,
{
    let ghost all = text::views(ids@);
    let mut k: usize = 0;
    while k < ids.len()
        invariant
            k <= ids@.len(),
            all == text::views(ids@),
            lookup::first_at(all, id@, 0) is Some,
            lookup::first_at(all, id@, 0) == lookup::first_at(all, id@, k as int),
        decreases ids@.len() - k,
    {
        if text::same(ids[k].as_str(), id) {
            return k;
        }
        k = k + 1;
    }
    assert(false);
    0
}

fn credited(c: Cell, halves: Option<u32>) -> (r: Cell)
    requires
        c.half_wins + 2 <= u32::MAX,
        c.n_decided < u32::MAX,
        c.n_timeout < u32::MAX,
        halves matches Some(h) ==> h <= 2,
    ensures
        r == match halves {
            Some(h) => Cell {
                half_wins: (c.half_wins + h) as u32,
                n_decided: (c.n_decided + 1) as u32,
                n_timeout: c.n_timeout,
            },
            None => Cell { n_timeout: (c.n_timeout + 1) as u32, ..c },
        },
{
    match halves {
        Some(h) => Cell {
            half_wins: c.half_wins + h,
            n_decided: c.n_decided + 1,
            n_timeout: c.n_timeout,
        },
        None => Cell {
            half_wins: c.half_wins,
            n_decided: c.n_decided,
            n_timeout: c.n_timeout + 1,
        },
    }
}

proof fn lemma_names(names: Seq<Seq<char>>, i: int, j: int)
    requires
        lookup::distinct(names),
        0 <= i < names.len(),
        0 <= j < names.len(),
    ensures
        names[i] == names[j] <==> i == j,
{
    if i < j {
        assert(names[i] != names[j]);
    } else if j < i {
        assert(names[j] != names[i]);
    }
}

proof fn lemma_grid(c: int, n: int)
    requires
        0 <= c < n * n,
        0 <= n,
    ensures
        0 <= c / n < n,
        0 <= c % n < n,
        c == (c / n) * n + c % n,
{
    assert(n > 0) by (nonlinear_arith)
        requires
            0 <= c < n * n,
            0 <= n,
    ;
    vstd::arithmetic::div_mod::lemma_fundamental_div_mod(c, n);
    assert((c / n) * n == n * (c / n)) by (nonlinear_arith);
    assert(c / n < n) by (nonlinear_arith)
        requires
            c < n * n,
            c == n * (c / n) + c % n,
            0 <= c % n,
            n > 0,
    ;
    assert(0 <= c / n) by (nonlinear_arith)
        requires
            0 <= c,
            n > 0,
    ;
}

/// Every id of a record appears.
proof fn lemma_appears(records: Seq<MatchRecord>, k: int)
    requires
        0 <= k < records.len(),
    ensures
        lookup::first_at(appearing(records), records[k].strategies@[0]@, 0) is Some,
        lookup::first_at(appearing(records), records[k].strategies@[1]@, 0) is Some,
    decreases records.len(),
{
    let before = appearing(records.drop_last());
    let r = records.last();
    let mid = with_id(before, r.strategies@[0]@);
    let all = appearing(records);
    if k < records.len() - 1 {
        lemma_appears(records.drop_last(), k);
        lemma_with_keeps(before, r.strategies@[0]@, records[k].strategies@[0]@);
        lemma_with_keeps(before, r.strategies@[0]@, records[k].strategies@[1]@);
        lemma_with_keeps(mid, r.strategies@[1]@, records[k].strategies@[0]@);
        lemma_with_keeps(mid, r.strategies@[1]@, records[k].strategies@[1]@);
    } else {
        lemma_with_holds(before, r.strategies@[0]@);
        lemma_with_keeps(mid, r.strategies@[1]@, r.strategies@[0]@);
        lemma_with_holds(mid, r.strategies@[1]@);
    }
}

proof fn lemma_with_holds(ids: Seq<Seq<char>>, id: Seq<char>)
    ensures
        lookup::first_at(with_id(ids, id), id, 0) is Some,
{
    let all = with_id(ids, id);
    lookup::lemma_first_at(all, id, 0);
    if lookup::first_at(ids, id, 0) is None {
        assert(all[ids.len() as int] == id);
    }
}

proof fn lemma_with_keeps(ids: Seq<Seq<char>>, id: Seq<char>, kept: Seq<char>)
    requires
        lookup::first_at(ids, kept, 0) is Some,
    ensures
        lookup::first_at(with_id(ids, id), kept, 0) is Some,
{
    let all = with_id(ids, id);
    lookup::lemma_first_at(ids, kept, 0);
    lookup::lemma_first_at(all, kept, 0);
    let i = lookup::first_at(ids, kept, 0)->0;
    assert(all[i] == kept);
}

/// The counts of a prefix leave room for one more record.
proof fn lemma_cell_bounds(records: Seq<MatchRecord>, k: int)
    requires
        0 <= k < records.len(),
        2 * records.len() <= u32::MAX,
    ensures
        forall|row: Seq<char>, col: Seq<char>| #[trigger]
            half_wins_of(records.take(k), row, col) + 2 <= u32::MAX,
        forall|row: Seq<char>, col: Seq<char>| #[trigger]
            decided_of(records.take(k), row, col) < u32::MAX,
        forall|row: Seq<char>, col: Seq<char>| #[trigger]
            timeouts_of(records.take(k), row, col) < u32::MAX,
{
    assert forall|row: Seq<char>, col: Seq<char>| #[trigger]
        half_wins_of(records.take(k), row, col) + 2 <= u32::MAX by {
        lemma_counts_fit(records.take(k), row, col);
    }
    assert forall|row: Seq<char>, col: Seq<char>| #[trigger]
        decided_of(records.take(k), row, col) < u32::MAX by {
        lemma_counts_fit(records.take(k), row, col);
    }
    assert forall|row: Seq<char>, col: Seq<char>| #[trigger]
        timeouts_of(records.take(k), row, col) < u32::MAX by {
        lemma_counts_fit(records.take(k), row, col);
    }
}

proof fn lemma_counts_fit(records: Seq<MatchRecord>, row: Seq<char>, col: Seq<char>)
    ensures
        half_wins_of(records, row, col) <= 2 * decided_of(records, row, col),
        decided_of(records, row, col) + timeouts_of(records, row, col) <= records.len(),
    decreases records.len(),
{
    if records.len() > 0 {
        lemma_counts_fit(records.drop_last(), row, col);
    }
}

proof fn lemma_upper_grows(m: &WinMatrix, p: nat, q: nat, timeouts: bool)
    requires
        p <= q,
    ensures
        m.upper(p, timeouts) <= m.upper(q, timeouts),
    decreases q,
{
    if p < q {
        lemma_upper_grows(m, p, (q - 1) as nat, timeouts);
    }
}

/// A record that timed out, or one that did not.
pub open spec fn ended(timeout: bool) -> spec_fn(MatchRecord) -> bool {
    |r: MatchRecord| r.result is Timeout == timeout
}

/// The count of one pair, decided or timed out.
spec fn pair_count(records: Seq<MatchRecord>, row: Seq<char>, col: Seq<char>, timeouts: bool) -> nat {
    if timeouts {
        timeouts_of(records, row, col)
    } else {
        decided_of(records, row, col)
    }
}

/// [`WinMatrix::upper`] over the counts of any records.
spec fn upper_of(
    names: Seq<Seq<char>>,
    records: Seq<MatchRecord>,
    p: nat,
    timeouts: bool,
) -> nat
    decreases p,
{
    if p == 0 {
        0
    } else {
        let n = names.len() as int;
        let (i, j) = ((p - 1) / n, (p - 1) % n);
        upper_of(names, records, (p - 1) as nat, timeouts) + if i > j {
            0
        } else {
            pair_count(records, names[i], names[j], timeouts)
        }
    }
}

proof fn lemma_upper_is(m: &WinMatrix, records: Seq<MatchRecord>, p: nat, timeouts: bool)
    requires
        m.describes(records),
        p <= m.names().len() * m.names().len(),
    ensures
        m.upper(p, timeouts) == upper_of(m.names(), records, p, timeouts),
    decreases p,
{
    if p > 0 {
        lemma_upper_is(m, records, (p - 1) as nat, timeouts);
        let n = m.names().len() as int;
        lemma_grid(p - 1, n);
        assert(m.at((p - 1) / n, (p - 1) % n).counts(
            records,
            m.names()[(p - 1) / n],
            m.names()[(p - 1) % n],
        ));
    }
}

/// One more record adds one at its place on or above the diagonal, once.
proof fn lemma_upper_next(
    names: Seq<Seq<char>>,
    records: Seq<MatchRecord>,
    p: nat,
    timeouts: bool,
    a: int,
    b: int,
)
    requires
        records.len() > 0,
        lookup::distinct(names),
        0 <= a < names.len(),
        0 <= b < names.len(),
        names[a] == records.last().strategies@[0]@,
        names[b] == records.last().strategies@[1]@,
        p <= names.len() * names.len(),
    ensures
        ({
            let n = names.len() as int;
            let q = if a <= b {
                a * n + b
            } else {
                b * n + a
            };
            upper_of(names, records, p, timeouts) == upper_of(
                names,
                records.drop_last(),
                p,
                timeouts,
            ) + if q < p && ended(timeouts)(records.last()) {
                1nat
            } else {
                0nat
            }
        }),
    decreases p,
{
    let n = names.len() as int;
    lemma_square(a, b, n);
    lemma_square(b, a, n);
    if p > 0 {
        lemma_upper_next(names, records, (p - 1) as nat, timeouts, a, b);
        lemma_grid(p - 1, n);
        let (i, j) = ((p - 1) / n, (p - 1) % n);
        lemma_names(names, i, a);
        lemma_names(names, i, b);
        lemma_names(names, j, a);
        lemma_names(names, j, b);
    }
}

/// The matches on or above the diagonal are the records, each once.
proof fn lemma_upper_records(
    m: &WinMatrix,
    all: Seq<MatchRecord>,
    records: Seq<MatchRecord>,
    timeouts: bool,
)
    requires
        m.describes(all),
        lookup::distinct(m.names()),
        records == all,
    ensures
        m.upper_total(timeouts) == counting::count(all, ended(timeouts)),
{
    let p = (m.names().len() * m.names().len()) as nat;
    lemma_upper_is(m, all, p, timeouts);
    assert forall|k: int| 0 <= k < all.len() implies lookup::first_at(
        m.names(),
        (#[trigger] all[k]).strategies@[0]@,
        0,
    ) is Some && lookup::first_at(m.names(), all[k].strategies@[1]@, 0) is Some by {
        lemma_appears(all, k);
    }
    lemma_upper_count(m.names(), all, timeouts);
}

proof fn lemma_upper_count(names: Seq<Seq<char>>, records: Seq<MatchRecord>, timeouts: bool)
    requires
        lookup::distinct(names),
        forall|k: int|
            0 <= k < records.len() ==> lookup::first_at(
                names,
                (#[trigger] records[k]).strategies@[0]@,
                0,
            ) is Some && lookup::first_at(names, records[k].strategies@[1]@, 0) is Some,
    ensures
        upper_of(names, records, (names.len() * names.len()) as nat, timeouts) == counting::count(
            records,
            ended(timeouts),
        ),
    decreases records.len(),
{
    let p = (names.len() * names.len()) as nat;
    if records.len() == 0 {
        lemma_upper_empty(names, records, p, timeouts);
    } else {
        let r = records.last();
        assert(records[records.len() - 1] == r);
        lookup::lemma_first_at(names, r.strategies@[0]@, 0);
        lookup::lemma_first_at(names, r.strategies@[1]@, 0);
        let a = lookup::first_at(names, r.strategies@[0]@, 0)->0;
        let b = lookup::first_at(names, r.strategies@[1]@, 0)->0;
        assert forall|k: int| 0 <= k < records.drop_last().len() implies lookup::first_at(
            names,
            (#[trigger] records.drop_last()[k]).strategies@[0]@,
            0,
        ) is Some && lookup::first_at(names, records.drop_last()[k].strategies@[1]@, 0) is Some by {
            assert(records.drop_last()[k] == records[k]);
        }
        lemma_upper_count(names, records.drop_last(), timeouts);
        lemma_upper_next(names, records, p, timeouts, a, b);
        lemma_square(a, b, names.len() as int);
        lemma_square(b, a, names.len() as int);
    }
}

proof fn lemma_upper_empty(
    names: Seq<Seq<char>>,
    records: Seq<MatchRecord>,
    p: nat,
    timeouts: bool,
)
    requires
        records.len() == 0,
    ensures
        upper_of(names, records, p, timeouts) == 0,
    decreases p,
{
    if p > 0 {
        lemma_upper_empty(names, records, (p - 1) as nat, timeouts);
    }
}

// ---- exact means ----------------------------------------------------------------

/// A strategy's overall strength: the mean of its defined off-diagonal rates,
/// and over how many cells.
#[derive(Clone, Copy, Debug)]
pub struct RowMean {
    pub mean: Option<F64>,
    pub cells: usize,
}

/// A fraction plus the rate of one cell.
pub open spec fn plus_rate(c: Cell, f: (nat, nat)) -> (nat, nat) {
    let d = 2 * c.n_decided as nat;
    (f.0 * d + c.half_wins as nat * f.1, f.1 * d)
}

/// The sum of the cells' rates, as a fraction.
pub open spec fn rate_sum(cells: Seq<Cell>) -> (nat, nat) {
    cells.fold_right(|c: Cell, f: (nat, nat)| plus_rate(c, f), (0, 1))
}

/// The bits of the number nearest the mean of the cells' rates.
pub open spec fn mean_bits(cells: Seq<Cell>) -> nat {
    let f = rate_sum(cells);
    ratio::bits64(f.0, f.1 * cells.len())
}

/// The mean of the cells' rates: the number nearest the exact mean. `None` for
/// no cells.
pub fn exact_mean(cells: &Vec<Cell>) -> (r: Option<F64>)
    requires
        forall|k: int|
            0 <= k < cells@.len() ==> (#[trigger] cells@[k]).sane() && cells@[k].n_decided > 0,
    ensures
        r is Some == (cells@.len() > 0),
        r matches Some(f) ==> f.bits == mean_bits(cells@),
{
    if cells.len() == 0 {
        return None;
    }
    let ghost step = |c: Cell, f: (nat, nat)| plus_rate(c, f);
    let mut num: Big = Big::of(0);
    let mut den: Big = Big::of(1);
    let mut i: usize = cells.len();
    assert(cells@.take(i as int) =~= cells@);
    assert(0 * den@ == 0);
    while i > 0
        invariant
            i <= cells@.len(),
            num.wf(),
            den.wf(),
            den@ > 0,
            num@ <= (cells@.len() - i) * den@,
            step == (|c: Cell, f: (nat, nat)| plus_rate(c, f)),
            rate_sum(cells@) == cells@.take(i as int).fold_right(step, (num@, den@)),
            forall|k: int|
                0 <= k < cells@.len() ==> (#[trigger] cells@[k]).sane() && cells@[k].n_decided
                    > 0,
        decreases i,
    {
        let c: Cell = cells[i - 1];
        let d: u64 = 2 * c.n_decided as u64;
        let ghost n0 = num@;
        let ghost d0 = den@;
        proof {
            let t = cells@.take(i as int);
            assert(t.drop_last() =~= cells@.take(i - 1));
            assert(t.last() == c);
            reveal_with_fuel(Seq::fold_right, 2);
        }
        let mut share: Big = den.copied();
        share.mul_small(c.half_wins as u64);
        num.mul_small(d);
        num.add(&share);
        den.mul_small(d);
        proof {
            let h = c.half_wins as nat;
            let m = (cells@.len() - i) as nat;
            assert(d0 * h == h * d0) by (nonlinear_arith);
            assert(d0 * d > 0) by (nonlinear_arith)
                requires
                    d0 > 0,
                    d > 0,
            ;
            assert(n0 * d + d0 * h <= (m + 1) * (d0 * d)) by (nonlinear_arith)
                requires
                    n0 <= m * d0,
                    h <= d,
            ;
        }
        i = i - 1;
    }
    reveal_with_fuel(Seq::fold_right, 2);
    assert(rate_sum(cells@) == (num@, den@));
    proof {
        let k = cells@.len();
        let d = den@;
        assert(d * k > 0 && num@ <= d * k) by (nonlinear_arith)
            requires
                num@ <= k * d,
                d > 0,
                k > 0,
        ;
    }
    den.mul_small(cells.len() as u64);
    Some(nearest(num, &den))
}

/// The binary64 number nearest `num / den`, ties to even, for a quotient of at
/// most one.
///
/// Long division, one bit at a time: skip the zero bits behind the point, take
/// 53 significant bits and a guard bit, and let the remainder break the tie.
pub fn nearest(num: Big, den: &Big) -> (r: F64)
    requires
        num.wf(),
        den.wf(),
        den@ > 0,
        num@ <= den@,
    ensures
        r.bits == ratio::bits64(num@, den@),
{
    if num.is_zero() {
        return F64 { bits: 0 };
    }
    let ghost n = num@;
    let ghost d = den@;
    proof {
        vstd::arithmetic::power2::lemma2_to64();
        vstd::arithmetic::power2::lemma2_to64_rest();
        assert(n * pow2(0) == n) by (nonlinear_arith)
            requires
                pow2(0) == 1,
        ;
        assert(n < pow2(53) * d) by (nonlinear_arith)
            requires
                n <= d,
                d > 0,
                pow2(53) == 0x20_0000_0000_0000,
        ;
    }
    let mut r: Big = num;
    let mut exp: u64 = 0;
    // Bring the quotient to one bit before the point.
    while exp < 1023 && r.less(den)
        invariant
            r.wf(),
            den.wf(),
            d == den@,
            n > 0,
            d > 0,
            exp <= 1023,
            r@ == n * pow2(exp as nat),
            r@ < 2 * d,
            n < pow2(53) * d,
        decreases 1023 - exp,
    {
        r.shl1();
        proof {
            lemma_double(n, exp as nat);
        }
        exp = exp + 1;
    }
    if r.less(den) {
        proof {
            lemma_far_below(n, d);
        }
        return F64 { bits: 0 };
    }
    r.sub(den);
    let mut sig: u64 = 1;
    let mut bits: u32 = 0;
    assert(1 * d == d);
    // Then 52 bits more.
    while bits < 52
        invariant
            r.wf(),
            den.wf(),
            d == den@,
            d > 0,
            bits <= 52,
            exp <= 1023 + bits,
            pow2(bits as nat) <= sig < 2 * pow2(bits as nat),
            pow2(bits as nat) <= 0x10_0000_0000_0000,
            r@ < d,
            n * pow2(exp as nat) == sig * d + r@,
        decreases 52 - bits,
    {
        let ghost r0 = r@;
        proof {
            lemma_double(n, exp as nat);
            lemma_pow2_unfold((bits + 1) as nat);
            vstd::arithmetic::power2::lemma2_to64();
            vstd::arithmetic::power2::lemma2_to64_rest();
            if bits + 1 < 52 {
                vstd::arithmetic::power2::lemma_pow2_strictly_increases((bits + 1) as nat, 52);
            }
            assert((2 * sig) * d == 2 * (sig * d) && (2 * sig + 1) * d == 2 * (sig * d) + d)
                by (nonlinear_arith);
        }
        r.shl1();
        exp = exp + 1;
        sig = sig * 2;
        if !r.less(den) {
            r.sub(den);
            sig = sig + 1;
        }
        bits = bits + 1;
    }
    let ghost q = sig as nat;
    let ghost rem = r@;
    proof {
        let x = n * pow2(exp as nat);
        vstd::arithmetic::power2::lemma2_to64();
        vstd::arithmetic::power2::lemma2_to64_rest();
        assert(x == d * q + rem) by (nonlinear_arith)
            requires
                x == q * d + rem,
        ;
        vstd::arithmetic::div_mod::lemma_fundamental_div_mod_converse(
            x as int,
            d as int,
            q as int,
            rem as int,
        );
        assert(ratio::scaled(n, d, 53, exp as nat)) by {
            assert(pow2(52) * d <= x && x < pow2(53) * d) by (nonlinear_arith)
                requires
                    x == q * d + rem,
                    pow2(52) <= q,
                    q + 1 <= pow2(53),
                    rem < d,
            ;
        }
        ratio::lemma_exponent_unique(n, d, 53, exp as nat, exp as nat);
    }
    r.shl1();
    let guard: bool = !r.less(den);
    if guard {
        r.sub(den);
    }
    let sticky: bool = !r.is_zero();
    if guard && (sticky || sig % 2 == 1) {
        sig = sig + 1;
    }
    assert(sig == ratio::half_even(n * pow2(exp as nat), d));
    if exp <= 1074 {
        F64 { bits: (1074 - exp) * 0x10_0000_0000_0000 + sig }
    } else {
        F64 { bits: 0 }
    }
}

proof fn lemma_double(n: nat, e: nat)
    ensures
        n * pow2(e + 1) == 2 * (n * pow2(e)),
{
    lemma_pow2_unfold(e + 1);
    assert(n * pow2(e + 1) == 2 * (n * pow2(e))) by (nonlinear_arith)
        requires
            pow2(e + 1) == 2 * pow2(e),
    ;
}

/// A quotient below 2^-1023 is below the normal range.
proof fn lemma_far_below(n: nat, d: nat)
    requires
        n > 0,
        d > 0,
        n * pow2(1023) < d,
        n < pow2(53) * d,
    ensures
        ratio::bits64(n, d) == 0,
{
    let e = ratio::lemma_exponent_exists(n, d, 53);
    ratio::lemma_exponent_unique(n, d, 53, e, e);
    if e <= 1074 {
        // 2^52 d <= n 2^e <= n 2^1074 < 2^51 d
        lemma_pow2_adds(1023, 51);
        lemma_pow2_pos(51);
        if e < 1074 {
            vstd::arithmetic::power2::lemma_pow2_strictly_increases(e, 1074);
        }
        lemma_pow2_unfold(52);
        let (a, b, c) = (pow2(e), pow2(1074), pow2(1023));
        let h = pow2(51);
        assert(n * a <= n * b) by (nonlinear_arith)
            requires
                a <= b,
        ;
        assert(n * b == (n * c) * h) by (nonlinear_arith)
            requires
                b == c * h,
        ;
        assert((n * c) * h < d * h) by (nonlinear_arith)
            requires
                n * c < d,
                h > 0,
        ;
        assert(pow2(52) * d >= d * h) by (nonlinear_arith)
            requires
                pow2(52) == 2 * h,
                h > 0,
        ;
    }
}

// ---- laws -------------------------------------------------------------------

/// Two strategies' rates against each other add up to exactly one: their
/// half-wins are twice the decided matches, which both cells count alike.
pub proof fn rates_complement(records: Seq<MatchRecord>, row: Seq<char>, col: Seq<char>)
    requires
        row != col,
    ensures
        half_wins_of(records, row, col) + half_wins_of(records, col, row) == 2 * decided_of(
            records,
            row,
            col,
        ),
        decided_of(records, row, col) == decided_of(records, col, row),
        timeouts_of(records, row, col) == timeouts_of(records, col, row),
    decreases records.len(),
{
    if records.len() > 0 {
        rates_complement(records.drop_last(), row, col);
    }
}

/// `s` is the match `r` with the slots exchanged, and the winner with them.
pub open spec fn exchanged(r: MatchRecord, s: MatchRecord) -> bool {
    &&& s.strategies@[0]@ == r.strategies@[1]@
    &&& s.strategies@[1]@ == r.strategies@[0]@
    &&& s.result == match r.result {
        MatchResult::Decided(f) => MatchResult::Decided(f.foe()),
        _ => r.result,
    }
}

/// Exchanging the slots of a match changes what it adds to no cell off the
/// diagonal: which slot a strategy played in does not matter.
pub proof fn slots_do_not_matter(r: MatchRecord, s: MatchRecord, row: Seq<char>, col: Seq<char>)
    requires
        row != col,
        exchanged(r, s),
    ensures
        share(r, row, col) == share(s, row, col),
{
}

/// The cells of two strategies against each other complement each other: what
/// one has not won of the decided matches, the other has.
pub proof fn cells_complement(m: &WinMatrix, records: Seq<MatchRecord>, i: int, j: int)
    requires
        m.wf(),
        m.describes(records),
        0 <= i < m.names().len(),
        0 <= j < m.names().len(),
        i != j,
    ensures
        m.at(i, j).half_wins + m.at(j, i).half_wins == 2 * m.at(i, j).n_decided,
        m.at(i, j).n_decided == m.at(j, i).n_decided,
        m.at(i, j).n_timeout == m.at(j, i).n_timeout,
{
    lemma_names(m.names(), i, j);
    rates_complement(records, m.names()[i], m.names()[j]);
    assert(m.at(i, j).counts(records, m.names()[i], m.names()[j]));
    assert(m.at(j, i).counts(records, m.names()[j], m.names()[i]));
}

/// Every record is counted once on or above the diagonal: the decided ones as
/// decided, the timed-out ones as timeouts, together all of them.
pub proof fn records_count_once(m: &WinMatrix, records: Seq<MatchRecord>)
    requires
        m.wf(),
        m.describes(records),
    ensures
        m.upper_total(false) == counting::count(records, ended(false)),
        m.upper_total(true) == counting::count(records, ended(true)),
        m.upper_total(false) + m.upper_total(true) == records.len(),
{
    lemma_upper_records(m, records, records, false);
    lemma_upper_records(m, records, records, true);
    let every = |r: MatchRecord| true;
    counting::lemma_count_split(records, ended(false), ended(true), every);
    lemma_count_every(records, every);
}

proof fn lemma_count_every(records: Seq<MatchRecord>, p: spec_fn(MatchRecord) -> bool)
    requires
        forall|r: MatchRecord| #[trigger] p(r),
    ensures
        counting::count(records, p) == records.len(),
    decreases records.len(),
{
    if records.len() > 0 {
        lemma_count_every(records.drop_last(), p);
        assert(p(records.last()));
    }
}

/// A mean is a function of the cells, never of their order.
pub proof fn mean_ignores_order(a: Seq<Cell>, b: Seq<Cell>)
    requires
        a.to_multiset() == b.to_multiset(),
    ensures
        mean_bits(a) == mean_bits(b),
{
    let step = |c: Cell, f: (nat, nat)| plus_rate(c, f);
    assert forall|x: Cell, y: Cell, f: (nat, nat)| #[trigger]
        step(x, step(y, f)) == step(y, step(x, f)) by {
        let (n, d) = f;
        let (hx, dx) = (x.half_wins as nat, 2 * x.n_decided as nat);
        let (hy, dy) = (y.half_wins as nat, 2 * y.n_decided as nat);
        assert((n * dy + hy * d) * dx + hx * (d * dy) == (n * dx + hx * d) * dy + hy * (d * dx))
            by (nonlinear_arith);
        assert((d * dy) * dx == (d * dx) * dy) by (nonlinear_arith);
    }
    vstd::seq_lib::lemma_fold_right_permutation(a, b, step, (0nat, 1nat));
    assert(a.len() == b.len()) by {
        a.to_multiset_ensures();
        b.to_multiset_ensures();
    }
}

/// A rate is above one half exactly if the row side has more half-wins than
/// there were decided matches: rounding never moves a rate over the line.
pub proof fn above_half(half_wins: nat, decided: nat)
    requires
        0 < decided,
        2 * decided <= u32::MAX,
        half_wins <= 2 * decided,
    ensures
        ratio::bits64(half_wins, 2 * decided) > HALF_BITS <==> half_wins > decided,
{
    let h = half_wins;
    let n = decided;
    let d = (2 * n) as nat;
    vstd::arithmetic::power2::lemma2_to64();
    vstd::arithmetic::power2::lemma2_to64_rest();
    if h > 0 {
        assert(h < pow2(53) * d) by (nonlinear_arith)
            requires
                h <= d,
                d > 0,
                pow2(53) == 0x20_0000_0000_0000,
        ;
        let e = ratio::lemma_exponent_exists(h, d, 53);
        ratio::lemma_exponent_unique(h, d, 53, e, e);
        ratio::lemma_half_even_bounds(h, d, 53, e);
        if h == d {
            // Exactly one.
            assert(ratio::scaled(h, d, 53, 52)) by {
                assert(pow2(52) * d <= h * pow2(52) && h * pow2(52) < pow2(53) * d)
                    by (nonlinear_arith)
                    requires
                        h == d,
                        d > 0,
                        pow2(52) == 0x10_0000_0000_0000,
                        pow2(53) == 0x20_0000_0000_0000,
                ;
            }
            ratio::lemma_exponent_unique(h, d, 53, e, 52);
        } else if h >= n {
            assert(ratio::scaled(h, d, 53, 53)) by {
                assert(pow2(52) * d <= h * pow2(53) && h * pow2(53) < pow2(53) * d)
                    by (nonlinear_arith)
                    requires
                        h < d,
                        d == 2 * n,
                        h >= n,
                        pow2(52) == 0x10_0000_0000_0000,
                        pow2(53) == 0x20_0000_0000_0000,
                ;
            }
            ratio::lemma_exponent_unique(h, d, 53, e, 53);
            let x = h * pow2(53);
            if h == n {
                assert(x == d * 0x10_0000_0000_0000 + 0) by (nonlinear_arith)
                    requires
                        x == h * pow2(53),
                        d == 2 * h,
                        pow2(53) == 0x20_0000_0000_0000,
                ;
                vstd::arithmetic::div_mod::lemma_fundamental_div_mod_converse(
                    x as int,
                    d as int,
                    0x10_0000_0000_0000,
                    0,
                );
            } else {
                assert(x >= d * 0x10_0000_0000_0001) by (nonlinear_arith)
                    requires
                        x == h * pow2(53),
                        h >= n + 1,
                        d == 2 * n,
                        2 * n <= 0xffff_ffff,
                        pow2(53) == 0x20_0000_0000_0000,
                ;
                vstd::arithmetic::div_mod::lemma_div_is_ordered(
                    (d * 0x10_0000_0000_0001) as int,
                    x as int,
                    d as int,
                );
                vstd::arithmetic::div_mod::lemma_div_multiples_vanish(
                    0x10_0000_0000_0001,
                    d as int,
                );
            }
        } else {
            // Below one half: at least one more bit to the left.
            assert(e >= 54) by {
                if e <= 53 {
                    if e < 53 {
                        vstd::arithmetic::power2::lemma_pow2_strictly_increases(e, 53);
                    }
                    assert(h * pow2(e) < pow2(52) * d) by (nonlinear_arith)
                        requires
                            h + 1 <= n,
                            d == 2 * n,
                            pow2(e) <= 0x20_0000_0000_0000,
                            pow2(52) == 0x10_0000_0000_0000,
                    ;
                }
            }
        }
    }
}

/// The bits of one half.
pub const HALF_BITS: u64 = 0x3FE0_0000_0000_0000;

// ---- what a matrix does not depend on ------------------------------------------

/// What a matrix reads of a record: who met whom, and how it ended. Neither the
/// seed nor the orientation nor the length.
pub open spec fn gist(r: MatchRecord) -> (Seq<char>, Seq<char>, MatchResult) {
    (r.strategies@[0]@, r.strategies@[1]@, r.result)
}

/// The same records in some order, as far as a matrix reads them.
pub open spec fn same_records(a: Seq<MatchRecord>, b: Seq<MatchRecord>) -> bool {
    gists(a).to_multiset() == gists(b).to_multiset()
}

pub open spec fn gists(records: Seq<MatchRecord>) -> Seq<(Seq<char>, Seq<char>, MatchResult)> {
    records.map_values(|r: MatchRecord| gist(r))
}

/// [`share`] of what is read of a record.
spec fn gist_share(
    g: (Seq<char>, Seq<char>, MatchResult),
    row: Seq<char>,
    col: Seq<char>,
) -> Share {
    if g.0 == row && g.1 == col {
        worth(g.2, Faction::A)
    } else if g.0 == col && g.1 == row {
        worth(g.2, Faction::B)
    } else {
        Share::Out
    }
}

/// A record worth at least `h` halves to the row side.
spec fn halves(row: Seq<char>, col: Seq<char>, h: nat) -> spec_fn(
    (Seq<char>, Seq<char>, MatchResult),
) -> bool {
    |g: (Seq<char>, Seq<char>, MatchResult)|
        gist_share(g, row, col) matches Share::Halves(k) && k >= h
}

spec fn undecided(row: Seq<char>, col: Seq<char>) -> spec_fn(
    (Seq<char>, Seq<char>, MatchResult),
) -> bool {
    |g: (Seq<char>, Seq<char>, MatchResult)| gist_share(g, row, col) is Undecided
}

/// A record that names a strategy.
spec fn names_it(id: Seq<char>) -> spec_fn((Seq<char>, Seq<char>, MatchResult)) -> bool {
    |g: (Seq<char>, Seq<char>, MatchResult)| g.0 == id || g.1 == id
}

/// The sums of a cell as counts.
proof fn lemma_sums_are_counts(records: Seq<MatchRecord>, row: Seq<char>, col: Seq<char>)
    ensures
        half_wins_of(records, row, col) == counting::count(gists(records), halves(row, col, 1))
            + counting::count(gists(records), halves(row, col, 2)),
        decided_of(records, row, col) == counting::count(gists(records), halves(row, col, 0)),
        timeouts_of(records, row, col) == counting::count(gists(records), undecided(row, col)),
    decreases records.len(),
{
    if records.len() > 0 {
        lemma_sums_are_counts(records.drop_last(), row, col);
        assert(gists(records).drop_last() =~= gists(records.drop_last()));
        assert(gists(records).last() == gist(records.last()));
    }
}

/// A strategy is listed exactly if a record names it.
proof fn lemma_listed(records: Seq<MatchRecord>, id: Seq<char>)
    ensures
        lookup::first_at(appearing(records), id, 0) is Some <==> counting::count(
            gists(records),
            names_it(id),
        ) > 0,
    decreases records.len(),
{
    if records.len() > 0 {
        lemma_listed(records.drop_last(), id);
        assert(gists(records).drop_last() =~= gists(records.drop_last()));
        assert(gists(records).last() == gist(records.last()));
        let before = appearing(records.drop_last());
        let r = records.last();
        lemma_with_is(before, r.strategies@[0]@, id);
        lemma_with_is(with_id(before, r.strategies@[0]@), r.strategies@[1]@, id);
    }
}

proof fn lemma_with_is(ids: Seq<Seq<char>>, id: Seq<char>, sought: Seq<char>)
    ensures
        lookup::first_at(with_id(ids, id), sought, 0) is Some <==> sought == id || lookup::first_at(
            ids,
            sought,
            0,
        ) is Some,
{
    let all = with_id(ids, id);
    lookup::lemma_first_at(ids, sought, 0);
    lookup::lemma_first_at(all, sought, 0);
    if sought == id {
        lemma_with_holds(ids, id);
    } else if lookup::first_at(ids, sought, 0) is Some {
        lemma_with_keeps(ids, id, sought);
    } else if lookup::first_at(all, sought, 0) is Some {
        let i = lookup::first_at(all, sought, 0)->0;
        assert(all[i] == sought);
        if i < ids.len() {
            assert(ids[i] == sought);
        }
    }
}

/// Records in another order, or with other seeds, lengths or orientations, say
/// the same of every pair of strategies: the same sums, and the same names.
pub proof fn sums_ignore_order(
    a: Seq<MatchRecord>,
    b: Seq<MatchRecord>,
    row: Seq<char>,
    col: Seq<char>,
)
    requires
        same_records(a, b),
    ensures
        half_wins_of(a, row, col) == half_wins_of(b, row, col),
        decided_of(a, row, col) == decided_of(b, row, col),
        timeouts_of(a, row, col) == timeouts_of(b, row, col),
        lookup::first_at(appearing(a), row, 0) is Some <==> lookup::first_at(
            appearing(b),
            row,
            0,
        ) is Some,
{
    lemma_sums_are_counts(a, row, col);
    lemma_sums_are_counts(b, row, col);
    counting::count_ignores_order(gists(a), gists(b), halves(row, col, 0));
    counting::count_ignores_order(gists(a), gists(b), halves(row, col, 1));
    counting::count_ignores_order(gists(a), gists(b), halves(row, col, 2));
    counting::count_ignores_order(gists(a), gists(b), undecided(row, col));
    lemma_listed(a, row);
    lemma_listed(b, row);
    counting::count_ignores_order(gists(a), gists(b), names_it(row));
}

/// Permuting the records, or changing their seeds, lengths or orientations,
/// leaves what every two strategies' ids find in the matrix the same.
pub proof fn cells_ignore_order(
    m: &WinMatrix,
    a: Seq<MatchRecord>,
    n: &WinMatrix,
    b: Seq<MatchRecord>,
    row: Seq<char>,
    col: Seq<char>,
)
    requires
        m.wf(),
        m.describes(a),
        n.wf(),
        n.describes(b),
        same_records(a, b),
    ensures
        m.found(row, col) == n.found(row, col),
{
    sums_ignore_order(a, b, row, col);
    sums_ignore_order(a, b, col, row);
    lemma_found_alike(m, a, n, b, row, col);
}

/// Matrices of records with the same sums and the same names find the same.
proof fn lemma_found_alike(
    m: &WinMatrix,
    a: Seq<MatchRecord>,
    n: &WinMatrix,
    b: Seq<MatchRecord>,
    row: Seq<char>,
    col: Seq<char>,
)
    requires
        m.describes(a),
        n.describes(b),
        half_wins_of(a, row, col) == half_wins_of(b, row, col),
        decided_of(a, row, col) == decided_of(b, row, col),
        timeouts_of(a, row, col) == timeouts_of(b, row, col),
        lookup::first_at(appearing(a), row, 0) is Some <==> lookup::first_at(
            appearing(b),
            row,
            0,
        ) is Some,
        lookup::first_at(appearing(a), col, 0) is Some <==> lookup::first_at(
            appearing(b),
            col,
            0,
        ) is Some,
    ensures
        m.found(row, col) == n.found(row, col),
{
    lookup::lemma_first_at(m.names(), row, 0);
    lookup::lemma_first_at(m.names(), col, 0);
    lookup::lemma_first_at(n.names(), row, 0);
    lookup::lemma_first_at(n.names(), col, 0);
    if m.found(row, col) is Some {
        let (i, j) = (
            lookup::first_at(m.names(), row, 0)->0,
            lookup::first_at(m.names(), col, 0)->0,
        );
        let (k, l) = (
            lookup::first_at(n.names(), row, 0)->0,
            lookup::first_at(n.names(), col, 0)->0,
        );
        assert(m.at(i, j).counts(a, row, col));
        assert(n.at(k, l).counts(b, row, col));
    }
}

/// Exchanging the two slots of a match between two strategies, and its winner
/// with them, leaves what every two strategies' ids find in the matrix the same.
pub proof fn cells_ignore_slots(
    m: &WinMatrix,
    a: Seq<MatchRecord>,
    n: &WinMatrix,
    b: Seq<MatchRecord>,
    k: int,
    row: Seq<char>,
    col: Seq<char>,
)
    requires
        m.wf(),
        m.describes(a),
        n.wf(),
        n.describes(b),
        a.len() == b.len(),
        0 <= k < a.len(),
        forall|i: int| 0 <= i < a.len() && i != k ==> a[i] == b[i],
        a[k].strategies@[0]@ != a[k].strategies@[1]@,
        exchanged(a[k], b[k]),
    ensures
        m.found(row, col) == n.found(row, col),
{
    assert forall|i: int| 0 <= i < a.len() implies alike(#[trigger] a[i], b[i], row, col) by {
        if i == k && row != col {
            slots_do_not_matter(a[k], b[k], row, col);
        }
    }
    lemma_alike(a, b, row, col);
    lemma_found_alike(m, a, n, b, row, col);
}

/// Two records say the same of a pair, and name it alike.
spec fn alike(r: MatchRecord, s: MatchRecord, row: Seq<char>, col: Seq<char>) -> bool {
    &&& share(r, row, col) == share(s, row, col)
    &&& names_it(row)(gist(r)) == names_it(row)(gist(s))
    &&& names_it(col)(gist(r)) == names_it(col)(gist(s))
}

proof fn lemma_alike(a: Seq<MatchRecord>, b: Seq<MatchRecord>, row: Seq<char>, col: Seq<char>)
    requires
        a.len() == b.len(),
        forall|i: int| 0 <= i < a.len() ==> alike(#[trigger] a[i], b[i], row, col),
    ensures
        half_wins_of(a, row, col) == half_wins_of(b, row, col),
        decided_of(a, row, col) == decided_of(b, row, col),
        timeouts_of(a, row, col) == timeouts_of(b, row, col),
        lookup::first_at(appearing(a), row, 0) is Some <==> lookup::first_at(
            appearing(b),
            row,
            0,
        ) is Some,
        lookup::first_at(appearing(a), col, 0) is Some <==> lookup::first_at(
            appearing(b),
            col,
            0,
        ) is Some,
    decreases a.len(),
{
    if a.len() > 0 {
        let (x, y) = (a.drop_last(), b.drop_last());
        assert(alike(a[a.len() - 1], b[a.len() - 1], row, col));
        assert forall|i: int| 0 <= i < x.len() implies alike(#[trigger] x[i], y[i], row, col) by {
            assert(alike(a[i], b[i], row, col));
        }
        lemma_alike(x, y, row, col);
        let (r, s) = (a.last(), b.last());
        let (p, q) = (appearing(x), appearing(y));
        lemma_with_is(p, r.strategies@[0]@, row);
        lemma_with_is(with_id(p, r.strategies@[0]@), r.strategies@[1]@, row);
        lemma_with_is(q, s.strategies@[0]@, row);
        lemma_with_is(with_id(q, s.strategies@[0]@), s.strategies@[1]@, row);
        lemma_with_is(p, r.strategies@[0]@, col);
        lemma_with_is(with_id(p, r.strategies@[0]@), r.strategies@[1]@, col);
        lemma_with_is(q, s.strategies@[0]@, col);
        lemma_with_is(with_id(q, s.strategies@[0]@), s.strategies@[1]@, col);
    }
}

/// The cells off the diagonal that have a rate, column by column: those of
/// `row` against each of the named.
spec fn picked(m: &WinMatrix, row: Seq<char>, named: Seq<Seq<char>>) -> Seq<Cell>
    decreases named.len(),
{
    if named.len() == 0 {
        Seq::empty()
    } else {
        let before = picked(m, row, named.drop_last());
        match counted(m, row, named.last()) {
            Some(c) => before.push(c),
            None => before,
        }
    }
}

/// The cell of a pair, if it goes into the row's mean.
spec fn counted(m: &WinMatrix, row: Seq<char>, col: Seq<char>) -> Option<Cell> {
    match m.found(row, col) {
        Some(c) => if row != col && c.n_decided > 0 {
            Some(c)
        } else {
            None
        },
        None => None,
    }
}

proof fn lemma_row_is_picked(m: &WinMatrix, i: int, j: int)
    requires
        m.wf(),
        0 <= i < m.names().len(),
        0 <= j <= m.names().len(),
    ensures
        m.row_cells(i, j) == picked(m, m.names()[i], m.names().take(j)),
    decreases j,
{
    if j > 0 {
        lemma_row_is_picked(m, i, j - 1);
        assert(m.names().take(j).drop_last() =~= m.names().take(j - 1));
        lemma_stands_at(m, i);
        lemma_stands_at(m, j - 1);
        lemma_names(m.names(), i, j - 1);
    } else {
        assert(m.names().take(0) =~= Seq::<Seq<char>>::empty());
    }
}

proof fn lemma_stands_at(m: &WinMatrix, i: int)
    requires
        m.wf(),
        0 <= i < m.names().len(),
    ensures
        lookup::first_at(m.names(), m.names()[i], 0) == Some(i),
{
    lookup::lemma_first_at(m.names(), m.names()[i], 0);
    let k = lookup::first_at(m.names(), m.names()[i], 0);
    assert(m.names()[i] == m.names()[i]);
    lemma_names(m.names(), k->0, i);
}

/// One column's cell more.
spec fn with_counted(m: &WinMatrix, row: Seq<char>) -> spec_fn(
    Seq<char>,
    Multiset<Cell>,
) -> Multiset<Cell> {
    |col: Seq<char>, cells: Multiset<Cell>|
        match counted(m, row, col) {
            Some(c) => cells.insert(c),
            None => cells,
        }
}

proof fn lemma_picked_folds(m: &WinMatrix, row: Seq<char>, named: Seq<Seq<char>>, base: Multiset<Cell>)
    ensures
        named.fold_right(with_counted(m, row), base) == base.add(
            picked(m, row, named).to_multiset(),
        ),
    decreases named.len(),
{
    broadcast use vstd::multiset::group_multiset_axioms;
    broadcast use vstd::seq_lib::group_to_multiset_ensures;

    if named.len() == 0 {
        let none = picked(m, row, named).to_multiset();
        assert(none.len() == 0);
        assert(base.add(none) =~= base) by {
            assert forall|c: Cell| none.count(c) == 0 by {
                if none.count(c) > 0 {
                    assert(picked(m, row, named).contains(c));
                }
            }
        }
    } else {
        let rest = named.drop_last();
        let step = with_counted(m, row);
        lemma_picked_folds(m, row, rest, step(named.last(), base));
        let before = picked(m, row, rest);
        match counted(m, row, named.last()) {
            Some(c) => {
                vstd::seq_lib::to_multiset_build(before, c);
                assert(base.insert(c).add(before.to_multiset()) =~= base.add(
                    before.push(c).to_multiset(),
                ));
            },
            None => {},
        }
    }
}

/// Two matrices that name the same strategies name them in some order.
proof fn lemma_same_names(m: &WinMatrix, a: Seq<MatchRecord>, n: &WinMatrix, b: Seq<MatchRecord>)
    requires
        m.wf(),
        m.describes(a),
        n.wf(),
        n.describes(b),
        same_records(a, b),
    ensures
        m.names().to_multiset() == n.names().to_multiset(),
{
    broadcast use vstd::multiset::group_multiset_axioms;
    broadcast use vstd::seq_lib::group_to_multiset_ensures;

    let (x, y) = (m.names(), n.names());
    assert(x.no_duplicates() && y.no_duplicates()) by {
        assert forall|i: int, j: int| 0 <= i < x.len() && 0 <= j < x.len() && i != j implies x[i]
            != x[j] by {
            lemma_names(x, i, j);
        }
        assert forall|i: int, j: int| 0 <= i < y.len() && 0 <= j < y.len() && i != j implies y[i]
            != y[j] by {
            lemma_names(y, i, j);
        }
    }
    x.lemma_multiset_has_no_duplicates();
    y.lemma_multiset_has_no_duplicates();
    assert forall|id: Seq<char>| x.contains(id) <==> y.contains(id) by {
        sums_ignore_order(a, b, id, id);
        lookup::lemma_first_at(x, id, 0);
        lookup::lemma_first_at(y, id, 0);
        if x.contains(id) {
            let i = choose|i: int| 0 <= i < x.len() && x[i] == id;
            assert(lookup::first_at(x, id, 0) is Some);
            assert(y[lookup::first_at(y, id, 0)->0] == id);
        }
        if y.contains(id) {
            let i = choose|i: int| 0 <= i < y.len() && y[i] == id;
            assert(lookup::first_at(y, id, 0) is Some);
            assert(x[lookup::first_at(x, id, 0)->0] == id);
        }
    }
    assert(x.to_multiset() =~= y.to_multiset()) by {
        assert forall|id: Seq<char>| x.to_multiset().count(id) == y.to_multiset().count(id) by {
            assert(x.contains(id) <==> y.contains(id));
        }
    }
}

/// Permuting the records, or changing their seeds, lengths or orientations,
/// leaves a strategy's mean the same bit for bit, over as many cells.
pub proof fn means_ignore_records_order(
    m: &WinMatrix,
    a: Seq<MatchRecord>,
    n: &WinMatrix,
    b: Seq<MatchRecord>,
    i: int,
    k: int,
)
    requires
        m.wf(),
        m.describes(a),
        n.wf(),
        n.describes(b),
        same_records(a, b),
        0 <= i < m.names().len(),
        0 <= k < n.names().len(),
        m.names()[i] == n.names()[k],
    ensures
        m.names().len() == n.names().len(),
        m.row_cells(i, m.names().len() as int).len() == n.row_cells(
            k,
            n.names().len() as int,
        ).len(),
        mean_bits(m.row_cells(i, m.names().len() as int)) == mean_bits(
            n.row_cells(k, n.names().len() as int),
        ),
{
    let row = m.names()[i];
    let (x, y) = (m.names(), n.names());
    lemma_same_names(m, a, n, b);
    assert(x.len() == y.len()) by {
        x.to_multiset_ensures();
        y.to_multiset_ensures();
    }
    lemma_row_is_picked(m, i, x.len() as int);
    lemma_row_is_picked(n, k, y.len() as int);
    assert(x.take(x.len() as int) =~= x);
    assert(y.take(y.len() as int) =~= y);
    let (p, q) = (picked(m, row, x), picked(n, row, y));
    let none = Multiset::<Cell>::empty();
    lemma_picked_folds(m, row, x, none);
    lemma_picked_folds(n, row, y, none);
    assert(with_counted(m, row) =~= with_counted(n, row)) by {
        assert forall|col: Seq<char>, cells: Multiset<Cell>| #[trigger]
            with_counted(m, row)(col, cells) == with_counted(n, row)(col, cells) by {
            cells_ignore_order(m, a, n, b, row, col);
        }
    }
    let step = with_counted(m, row);
    assert forall|u: Seq<char>, v: Seq<char>, cells: Multiset<Cell>| #[trigger]
        step(u, step(v, cells)) == step(v, step(u, cells)) by {
        broadcast use vstd::multiset::group_multiset_axioms;

        assert(step(u, step(v, cells)) =~= step(v, step(u, cells)));
    }
    vstd::seq_lib::lemma_fold_right_permutation(x, y, step, none);
    assert(p.to_multiset() == q.to_multiset()) by {
        broadcast use vstd::multiset::group_multiset_axioms;

        assert(none.add(p.to_multiset()) =~= p.to_multiset());
        assert(none.add(q.to_multiset()) =~= q.to_multiset());
    }
    mean_ignores_order(p, q);
    assert(p.len() == q.len()) by {
        p.to_multiset_ensures();
        q.to_multiset_ensures();
    }
}

/// The record is of `row` in slot A against `col` in slot B.
pub open spec fn of_pair(r: MatchRecord, row: Seq<char>, col: Seq<char>) -> bool {
    r.strategies@[0]@ == row && r.strategies@[1]@ == col
}

/// The record is a win of `row` over `col`, in whichever slots.
pub open spec fn beats(r: MatchRecord, row: Seq<char>, col: Seq<char>) -> bool {
    ||| of_pair(r, row, col) && r.result == MatchResult::Decided(Faction::A)
    ||| of_pair(r, col, row) && r.result == MatchResult::Decided(Faction::B)
}

/// The record is of these two, in whichever slots, and ended in `result`.
pub open spec fn draws(r: MatchRecord, row: Seq<char>, col: Seq<char>, result: MatchResult) -> bool {
    (of_pair(r, row, col) || of_pair(r, col, row)) && r.result == result
}

/// A cell is the record of its row against its column: a win of the row side
/// counts two halves and a mutual loss one, a loss none; the decided matches are
/// the wins, the losses and the mutual losses, and the rest timed out.
pub proof fn a_cell_counts_wins(records: Seq<MatchRecord>, row: Seq<char>, col: Seq<char>)
    requires
        row != col,
    ensures
        ({
            let wins = records.filter(|r: MatchRecord| beats(r, row, col)).len();
            let losses = records.filter(|r: MatchRecord| beats(r, col, row)).len();
            let mutual = records.filter(
                |r: MatchRecord| draws(r, row, col, MatchResult::MutualLoss),
            ).len();
            let undecided = records.filter(
                |r: MatchRecord| draws(r, row, col, MatchResult::Timeout),
            ).len();
            &&& half_wins_of(records, row, col) == 2 * wins + mutual
            &&& decided_of(records, row, col) == wins + losses + mutual
            &&& timeouts_of(records, row, col) == undecided
        }),
    decreases records.len(),
{
    reveal(Seq::filter);
    if records.len() > 0 {
        a_cell_counts_wins(records.drop_last(), row, col);
    }
}

/// A mirror is slot A's: what slot A won counts two halves, a mutual loss one.
pub proof fn a_mirror_counts_for_slot_a(records: Seq<MatchRecord>, id: Seq<char>)
    ensures
        half_wins_of(records, id, id) == 2 * records.filter(
            |r: MatchRecord|
                of_pair(r, id, id) && r.result == MatchResult::Decided(Faction::A),
        ).len() + records.filter(
            |r: MatchRecord| of_pair(r, id, id) && r.result == MatchResult::MutualLoss,
        ).len(),
    decreases records.len(),
{
    reveal(Seq::filter);
    if records.len() > 0 {
        a_mirror_counts_for_slot_a(records.drop_last(), id);
    }
}

/// The mean over one cell is its rate, and the sum over two is the sum of their
/// rates.
pub proof fn rates_add_up(a: Cell, b: Cell)
    ensures
        mean_bits(seq![a]) == ratio::bits64(a.half_wins as nat, 2 * a.n_decided as nat),
        rate_sum(seq![a, b]) == (
            b.half_wins as nat * (2 * a.n_decided as nat) + a.half_wins as nat * (2
                * b.n_decided as nat),
            (2 * b.n_decided as nat) * (2 * a.n_decided as nat),
        ),
{
    let step = |c: Cell, f: (nat, nat)| plus_rate(c, f);
    let (one, two) = (seq![a], seq![a, b]);
    reveal_with_fuel(Seq::fold_right, 3);
    assert(one.drop_last() =~= Seq::<Cell>::empty());
    assert(two.drop_last() =~= one);
    let (ha, da) = (a.half_wins as nat, 2 * a.n_decided as nat);
    let (hb, db) = (b.half_wins as nat, 2 * b.n_decided as nat);
    assert(0 * da + ha * 1 == ha && 1 * da == da && da * 1 == da) by (nonlinear_arith);
    assert(0 * db + hb * 1 == hb && 1 * db == db) by (nonlinear_arith);
    assert(rate_sum(one) == (ha, da));
    assert(ha * db == db * ha && db * da == da * db) by (nonlinear_arith);
}

/// Everybody who played has a row and a column, once, and nobody else has.
pub proof fn the_matrix_names_who_played(records: Seq<MatchRecord>, id: Seq<char>)
    ensures
        appearing(records).contains(id) <==> exists|k: int|
            0 <= k < records.len() && ((#[trigger] records[k]).strategies@[0]@ == id
                || records[k].strategies@[1]@ == id),
    decreases records.len(),
{
    if records.len() > 0 {
        the_matrix_names_who_played(records.drop_last(), id);
        let r = records.last();
        let before = appearing(records.drop_last());
        let mid = with_id(before, r.strategies@[0]@);
        lemma_with_id(before, r.strategies@[0]@, id);
        lemma_with_id(mid, r.strategies@[1]@, id);
        if exists|k: int|
            0 <= k < records.len() && ((#[trigger] records[k]).strategies@[0]@ == id
                || records[k].strategies@[1]@ == id) {
            let k = choose|k: int|
                0 <= k < records.len() && ((#[trigger] records[k]).strategies@[0]@ == id
                    || records[k].strategies@[1]@ == id);
            if k < records.len() - 1 {
                assert(records.drop_last()[k] == records[k]);
            }
        }
        if before.contains(id) {
            let k = choose|k: int|
                0 <= k < records.drop_last().len() && ((
                #[trigger] records.drop_last()[k]).strategies@[0]@ == id
                    || records.drop_last()[k].strategies@[1]@ == id);
            assert(records[k] == records.drop_last()[k]);
        }
        assert(records[records.len() - 1] == r);
    }
}

/// Adding an id adds that id.
pub proof fn lemma_with_id(ids: Seq<Seq<char>>, new: Seq<char>, id: Seq<char>)
    ensures
        with_id(ids, new).contains(id) <==> ids.contains(id) || id == new,
{
    lookup::lemma_first_at(ids, new, 0);
    let all = with_id(ids, new);
    if lookup::first_at(ids, new, 0) is Some {
        assert(ids[lookup::first_at(ids, new, 0)->0] == new);
    } else {
        assert(all[ids.len() as int] == new);
        if ids.contains(id) {
            let i = choose|i: int| 0 <= i < ids.len() && ids[i] == id;
            assert(all[i] == id);
        }
        if all.contains(id) && id != new {
            let i = choose|i: int| 0 <= i < all.len() && all[i] == id;
            assert(ids[i] == id);
        }
    }
}

/// A row's strength counts its cells off the diagonal that have a rate, each
/// once.
pub proof fn a_row_counts_its_rates(m: &WinMatrix, i: int, j: int)
    requires
        0 <= i < m.names().len(),
        0 <= j,
    ensures
        m.row_cells(i, j) == Seq::new(j as nat, |x: int| x).filter(
            |x: int| x != i && m.at(i, x).n_decided > 0,
        ).map_values(|x: int| m.at(i, x)),
    decreases j,
{
    reveal(Seq::filter);
    let p = |x: int| x != i && m.at(i, x).n_decided > 0;
    let f = |x: int| m.at(i, x);
    let all = Seq::new(j as nat, |x: int| x);
    if j > 0 {
        a_row_counts_its_rates(m, i, j - 1);
        let before = Seq::new((j - 1) as nat, |x: int| x);
        assert(all.drop_last() =~= before);
        assert(all.last() == j - 1);
        if p(j - 1) {
            assert(all.filter(p) == before.filter(p).push(j - 1));
            assert(all.filter(p).map_values(f) =~= before.filter(p).map_values(f).push(
                m.at(i, j - 1),
            ));
        } else {
            assert(all.filter(p) == before.filter(p));
        }
    } else {
        assert(all.filter(p).map_values(f) =~= m.row_cells(i, j));
    }
}

} // verus!
