//! The tile map.

use vstd::prelude::*;

use crate::float::{F32, Point};
use crate::sim::spatial;
use crate::sim::spatial::SplitMix64;

verus! {

/// A tile map: a `width × height` grid of walkable and blocked cells.
///
/// Cells are numbered `y * width + x`. The grid lies over the world by
/// `origin` (the position of the lower corner of cell `(0, 0)`) and
/// `cell_size`.
pub struct TileGrid {
    pub width: usize,
    pub height: usize,
    pub cell_size: F32,
    pub origin: Point,
    /// `blocked[y * width + x]`: true where a unit may not stand or pass.
    pub blocked: Vec<bool>,
}

/// Are the cells at `(ax, ay)` and `(bx, by)` edge to edge?
pub open spec fn edge_adjacent(ax: int, ay: int, bx: int, by: int) -> bool {
    ||| ax == bx && (ay == by + 1 || by == ay + 1)
    ||| ay == by && (ax == bx + 1 || bx == ax + 1)
}

pub open spec fn abs_gap(a: int, b: int) -> int {
    if a <= b {
        b - a
    } else {
        a - b
    }
}

/// The number of columns that hold rows of these lengths: the longest of them.
pub open spec fn longest(rows: Seq<&str>) -> nat
    decreases rows.len(),
{
    if rows.len() == 0 {
        0
    } else {
        let rest = longest(rows.drop_last());
        if rows.last()@.len() > rest {
            rows.last()@.len()
        } else {
            rest
        }
    }
}

proof fn lemma_cell_bounds(x: int, y: int, w: int, h: int)
    requires
        0 <= x < w,
        0 <= y < h,
    ensures
        0 <= y * w + x < w * h,
        y * w <= w * h,
        (y * w + x) % w == x,
        (y * w + x) / w == y,
{
    assert(0 <= y * w + x < w * h && y * w <= w * h) by (nonlinear_arith)
        requires
            0 <= x < w,
            0 <= y < h,
    ;
    vstd::arithmetic::div_mod::lemma_fundamental_div_mod_converse(y * w + x, w, y, x);
}

proof fn lemma_coordinates(c: int, w: int, h: int)
    requires
        0 <= c < w * h,
        0 <= w,
        0 <= h,
    ensures
        0 < w,
        0 <= c % w < w,
        0 <= c / w < h,
        (c / w) * w + c % w == c,
{
    assert(w > 0) by (nonlinear_arith)
        requires
            0 <= c < w * h,
            0 <= w,
            0 <= h,
    ;
    vstd::arithmetic::div_mod::lemma_fundamental_div_mod(c, w);
    assert((c / w) * w == w * (c / w)) by (nonlinear_arith);
    assert(0 <= c / w < h) by (nonlinear_arith)
        requires
            0 <= c < w * h,
            0 < w,
            c == w * (c / w) + c % w,
            0 <= c % w < w,
    ;
}

impl TileGrid {
    /// The blocked flag of each cell.
    pub open spec fn walls(&self) -> Seq<bool> {
        self.blocked@
    }

    /// How many cells there are.
    pub open spec fn cells(&self) -> int {
        self.width as int * self.height as int
    }

    /// There is one flag per cell.
    pub open spec fn wf(&self) -> bool {
        self.walls().len() == self.cells() <= usize::MAX
    }

    /// Cell `c` is on the map and not blocked.
    pub open spec fn free(&self, c: int) -> bool {
        0 <= c < self.walls().len() && !self.walls()[c]
    }

    pub open spec fn cell(&self, x: int, y: int) -> int {
        y * self.width + x
    }

    pub open spec fn col(&self, c: int) -> int {
        c % self.width as int
    }

    pub open spec fn row(&self, c: int) -> int {
        c / self.width as int
    }

    /// Cells `a` and `b` share an edge.
    pub open spec fn adjacent(&self, a: int, b: int) -> bool {
        edge_adjacent(self.col(a), self.row(a), self.col(b), self.row(b))
    }

    /// One step over walkable ground.
    pub open spec fn step(&self, a: int, b: int) -> bool {
        self.free(a) && self.free(b) && self.adjacent(a, b)
    }

    /// Columns plus rows between two cells.
    #[verifier::opaque]
    pub open spec fn taxicab(&self, a: int, b: int) -> int {
        abs_gap(self.col(a), self.col(b)) + abs_gap(self.row(a), self.row(b))
    }

    /// The same map but for the flags.
    pub open spec fn same_frame(&self, other: &TileGrid) -> bool {
        &&& self.width == other.width
        &&& self.height == other.height
        &&& self.cell_size == other.cell_size
        &&& self.origin == other.origin
    }

    /// An all-walkable `width × height` grid.
    pub fn new(width: usize, height: usize, cell_size: F32, origin: Point) -> (r: Self)
        requires
            width * height <= usize::MAX,
        ensures
            r.wf(),
            r.width == width,
            r.height == height,
            r.cell_size == cell_size,
            r.origin == origin,
            forall|c: int| 0 <= c < r.cells() ==> #[trigger] r.free(c),
    {
        assert(0 <= width * height) by (nonlinear_arith);
        let n: usize = width * height;
        let mut blocked: Vec<bool> = Vec::new();
        let mut i: usize = 0;
        while i < n
            invariant
                i <= n,
                blocked@.len() == i,
                forall|c: int| 0 <= c < i ==> !#[trigger] blocked@[c],
            decreases n - i,
        {
            blocked.push(false);
            i = i + 1;
        }
        TileGrid { width, height, cell_size, origin, blocked }
    }

    /// Build a grid from rows of text: `'#'` is blocked, anything else is
    /// walkable, and a row shorter than the longest ends in walkable cells.
    /// Row 0 is `y = 0`.
    pub fn from_rows(rows: &[&str], cell_size: F32, origin: Point) -> (r: Self)
        requires
            longest(rows@) * rows@.len() <= usize::MAX,
        ensures
            r.wf(),
            r.width == longest(rows@),
            r.height == rows@.len(),
            r.cell_size == cell_size,
            r.origin == origin,
            forall|x: int, y: int|
                0 <= x < r.width && 0 <= y < r.height ==> (#[trigger] r.free(r.cell(x, y)) <==> !(x
                    < rows@[y]@.len() && rows@[y]@[x] == '#')),
    {
        let height: usize = rows.len();
        let mut width: usize = 0;
        let mut k: usize = 0;
        while k < height
            invariant
                k <= height,
                height == rows@.len(),
                width == longest(rows@.take(k as int)),
                forall|j: int| 0 <= j < k ==> (#[trigger] rows@[j])@.len() <= width,
            decreases height - k,
        {
            assert(rows@.take(k + 1).drop_last() =~= rows@.take(k as int));
            let n: usize = rows[k].unicode_len();
            if n > width {
                width = n;
            }
            k = k + 1;
        }
        assert(rows@.take(height as int) =~= rows@);
        let mut r = Self::new(width, height, cell_size, origin);
        let ghost w: int = width as int;
        let ghost h: int = height as int;
        proof {
            assert forall|x1: int, y1: int| 0 <= x1 < w && 0 <= y1 < h implies #[trigger] r.free(
                r.cell(x1, y1),
            ) by {
                lemma_cell_bounds(x1, y1, w, h);
            }
        }
        let mut y: usize = 0;
        while y < height
            invariant
                y <= height,
                w == width,
                h == height,
                height == rows@.len(),
                r.width == width,
                r.height == height,
                r.cell_size == cell_size,
                r.origin == origin,
                r.blocked@.len() == w * h,
                w * h <= usize::MAX,
                forall|j: int| 0 <= j < h ==> (#[trigger] rows@[j])@.len() <= w,
                forall|x1: int, y1: int|
                    0 <= x1 < w && 0 <= y1 < y ==> (#[trigger] r.free(r.cell(x1, y1)) <==> !(x1
                        < rows@[y1]@.len() && rows@[y1]@[x1] == '#')),
                forall|x1: int, y1: int|
                    0 <= x1 < w && y <= y1 < h ==> #[trigger] r.free(r.cell(x1, y1)),
            decreases height - y,
        {
            let row: &str = rows[y];
            let n: usize = row.unicode_len();
            let mut x: usize = 0;
            while x < n
                invariant
                    y < height,
                    x <= n,
                    n == row@.len(),
                    row@ == rows@[y as int]@,
                    n <= w,
                    w == width,
                    h == height,
                    height == rows@.len(),
                    r.width == width,
                    r.height == height,
                    r.cell_size == cell_size,
                    r.origin == origin,
                    r.blocked@.len() == w * h,
                    w * h <= usize::MAX,
                    forall|x1: int, y1: int|
                        0 <= x1 < w && 0 <= y1 < y ==> (#[trigger] r.free(r.cell(x1, y1)) <==> !(x1
                            < rows@[y1]@.len() && rows@[y1]@[x1] == '#')),
                    forall|x1: int, y1: int|
                        0 <= x1 < w && y <= y1 < h ==> (#[trigger] r.free(r.cell(x1, y1)) <==> !(y1
                            == y && x1 < x && row@[x1] == '#')),
                decreases n - x,
            {
                if row.get_char(x) == '#' {
                    let ghost before = r;
                    proof {
                        lemma_cell_bounds(x as int, y as int, w, h);
                    }
                    let i: usize = y * width + x;
                    r.blocked.set(i, true);
                    proof {
                        assert forall|x1: int, y1: int| 0 <= x1 < w && 0 <= y1 < h implies (
                        #[trigger] r.free(r.cell(x1, y1)) <==> (before.free(before.cell(x1, y1))
                            && !(x1 == x && y1 == y))) by {
                            lemma_cell_bounds(x1, y1, w, h);
                        }
                    }
                }
                x = x + 1;
            }
            y = y + 1;
        }
        r
    }

    /// A deterministic obstacle field: cell `c` is blocked when the `c`-th
    /// uniform number of the seeded stream is below `blocked_fraction`.
    pub fn random(
        width: usize,
        height: usize,
        cell_size: F32,
        origin: Point,
        blocked_fraction: F32,
        seed: u64,
    ) -> (r: Self)
        requires
            width * height <= usize::MAX,
        ensures
            r.wf(),
            r.width == width,
            r.height == height,
            r.cell_size == cell_size,
            r.origin == origin,
            forall|c: int|
                0 <= c < r.cells() ==> (#[trigger] r.free(c) <==> !spatial::unit_f32(
                    spatial::draw(seed, c as nat),
                ).less(blocked_fraction)),
    {
        assert(0 <= width * height) by (nonlinear_arith);
        let n: usize = width * height;
        let mut rng = SplitMix64::new(seed);
        let mut blocked: Vec<bool> = Vec::new();
        let mut i: usize = 0;
        while i < n
            invariant
                i <= n,
                blocked@.len() == i,
                rng@ == spatial::state_after(seed, i as nat),
                forall|c: int|
                    0 <= c < i ==> (#[trigger] blocked@[c] <==> spatial::unit_f32(
                        spatial::draw(seed, c as nat),
                    ).less(blocked_fraction)),
            decreases n - i,
        {
            proof {
                spatial::lemma_state_after_adds(seed, i as nat, 1);
            }
            let v: F32 = rng.next_f32();
            blocked.push(v.lt(&blocked_fraction));
            i = i + 1;
        }
        TileGrid { width, height, cell_size, origin, blocked }
    }

    /// Number of cell `(x, y)`.
    pub fn idx(&self, x: usize, y: usize) -> (r: usize)
        requires
            self.cell(x as int, y as int) <= usize::MAX,
        ensures
            r == self.cell(x as int, y as int),
    {
        assert(0 <= y * self.width) by (nonlinear_arith);
        y * self.width + x
    }

    /// `(x, y)` of a cell.
    pub fn xy(&self, idx: usize) -> (r: (usize, usize))
        requires
            self.width > 0,
        ensures
            r.0 == self.col(idx as int),
            r.1 == self.row(idx as int),
    {
        (idx % self.width, idx / self.width)
    }

    /// Total cell count.
    pub fn len(&self) -> (r: usize)
        requires
            self.cells() <= usize::MAX,
        ensures
            r == self.cells(),
    {
        assert(0 <= self.width * self.height) by (nonlinear_arith);
        self.width * self.height
    }

    /// Whether the grid has no cells.
    pub fn is_empty(&self) -> (r: bool)
        ensures
            r == (self.walls().len() == 0),
    {
        self.blocked.len() == 0
    }

    /// Whether cell `idx` is walkable (in range and not blocked).
    pub fn is_walkable(&self, idx: usize) -> (r: bool)
        ensures
            r == self.free(idx as int),
    {
        idx < self.blocked.len() && !self.blocked[idx]
    }

    /// Whether cell `(x, y)` is walkable (in range and not blocked).
    pub fn is_walkable_xy(&self, x: usize, y: usize) -> (r: bool)
        requires
            self.wf(),
        ensures
            r == (x < self.width && y < self.height && self.free(self.cell(x as int, y as int))),
    {
        if x < self.width && y < self.height {
            proof {
                lemma_cell_bounds(x as int, y as int, self.width as int, self.height as int);
            }
            let i: usize = self.idx(x, y);
            !self.blocked[i]
        } else {
            false
        }
    }

    /// Block or unblock cell `(x, y)`.
    pub fn set_blocked(&mut self, x: usize, y: usize, blocked: bool)
        requires
            old(self).wf(),
            old(self).cell(x as int, y as int) < old(self).cells(),
        ensures
            final(self).wf(),
            final(self).same_frame(old(self)),
            final(self).walls() == old(self).walls().update(
                old(self).cell(x as int, y as int),
                blocked,
            ),
    {
        assert(0 <= y * self.width) by (nonlinear_arith);
        let i: usize = self.idx(x, y);
        self.blocked.set(i, blocked);
    }

    /// The cell in column `fx` and row `fy`, each brought to the nearest one on
    /// the map.
    pub fn cell_at(&self, fx: isize, fy: isize) -> (r: usize)
        requires
            self.wf(),
            0 < self.width <= isize::MAX,
            0 < self.height <= isize::MAX,
        ensures
            r < self.cells(),
            self.col(r as int) == clamped(fx as int, self.width as int),
            self.row(r as int) == clamped(fy as int, self.height as int),
    {
        let x: usize = clamp_index(fx, self.width);
        let y: usize = clamp_index(fy, self.height);
        proof {
            lemma_cell_bounds(x as int, y as int, self.width as int, self.height as int);
        }
        self.idx(x, y)
    }

    /// Put the walkable edge-adjacent neighbours of `idx` into `out` (cleared
    /// first), in ascending order.
    pub fn walkable_neighbors(&self, idx: usize, out: &mut Vec<usize>)
        requires
            self.wf(),
            idx < self.cells(),
        ensures
            forall|i: int, j: int|
                0 <= i < j < final(out)@.len() ==> #[trigger] final(out)@[i]
                    < #[trigger] final(out)@[j],
            forall|c: int|
                (exists|i: int| 0 <= i < final(out)@.len() && #[trigger] final(out)@[i] == c)
                    <==> #[trigger] self.free(c) && self.adjacent(idx as int, c),
    {
        out.clear();
        let ghost w: int = self.width as int;
        let ghost h: int = self.height as int;
        proof {
            lemma_coordinates(idx as int, w, h);
        }
        let (x, y) = self.xy(idx);
        let ghost s0 = out@;
        if y > 0 {
            proof {
                lemma_cell_bounds(x as int, y - 1, w, h);
            }
            let ni: usize = self.idx(x, y - 1);
            if !self.blocked[ni] {
                out.push(ni);
            }
        }
        let ghost s1 = out@;
        if x > 0 {
            proof {
                lemma_cell_bounds(x - 1, y as int, w, h);
            }
            let ni: usize = self.idx(x - 1, y);
            if !self.blocked[ni] {
                out.push(ni);
            }
        }
        let ghost s2 = out@;
        if x + 1 < self.width {
            proof {
                lemma_cell_bounds(x + 1, y as int, w, h);
            }
            let ni: usize = self.idx(x + 1, y);
            if !self.blocked[ni] {
                out.push(ni);
            }
        }
        let ghost s3 = out@;
        if y + 1 < self.height {
            proof {
                lemma_cell_bounds(x as int, y + 1, w, h);
            }
            let ni: usize = self.idx(x, y + 1);
            if !self.blocked[ni] {
                out.push(ni);
            }
        }
        let ghost s4 = out@;
        proof {
            let up = (y - 1) * w + x;
            let left = y * w + x - 1;
            let right = y * w + x + 1;
            let down = (y + 1) * w + x;
            assert(up == y * w + x - w && down == y * w + x + w) by (nonlinear_arith)
                requires
                    up == (y - 1) * w + x,
                    down == (y + 1) * w + x,
            ;
            let n1: int = if y > 0 && self.free(up) { 1 } else { 0 };
            let n2: int = n1 + if x > 0 && self.free(left) { 1int } else { 0 };
            let n3: int = n2 + if x + 1 < w && self.free(right) { 1int } else { 0 };
            let n4: int = n3 + if y + 1 < h && self.free(down) { 1int } else { 0 };
            assert(s1.len() == n1 && s2.len() == n2 && s3.len() == n3 && s4.len() == n4);
            assert forall|i: int| 0 <= i < s4.len() implies (i < n1 && #[trigger] s4[i] == up) || (n1
                <= i < n2 && s4[i] == left) || (n2 <= i < n3 && s4[i] == right) || (n3 <= i && s4[i]
                == down) by {}
            assert forall|c: int| #[trigger] self.free(c) && self.adjacent(idx as int, c) implies (
            exists|i: int| 0 <= i < s4.len() && #[trigger] s4[i] == c) by {
                lemma_coordinates(c, w, h);
                let (cx, cy) = (self.col(c), self.row(c));
                assert(c == cy * w + cx);
                if cx == x && cy == y - 1 {
                    assert(s4[0] == c);
                } else if cy == y && cx == x - 1 {
                    assert(s4[n1] == c);
                } else if cy == y && cx == x + 1 {
                    assert(s4[n2] == c);
                } else {
                    assert(cx == x && cy == y + 1);
                    assert(s4[n3] == c);
                }
            }
        }
    }

    /// Columns plus rows between two cells: never more than the steps between
    /// them.
    pub fn manhattan(&self, a: usize, b: usize) -> (r: u64)
        requires
            self.wf(),
            a < self.cells(),
            b < self.cells(),
        ensures
            r == self.taxicab(a as int, b as int),
    {
        proof {
            reveal(TileGrid::taxicab);
            lemma_coordinates(a as int, self.width as int, self.height as int);
            lemma_coordinates(b as int, self.width as int, self.height as int);
            assert(self.width + self.height <= self.width * self.height + 1) by (nonlinear_arith)
                requires
                    self.width >= 1,
                    self.height >= 1,
            ;
        }
        let (ax, ay) = self.xy(a);
        let (bx, by) = self.xy(b);
        let dx: usize = if ax <= bx {
            bx - ax
        } else {
            ax - bx
        };
        let dy: usize = if ay <= by {
            by - ay
        } else {
            ay - by
        };
        (dx + dy) as u64
    }
}

/// `f` brought into `0..n`.
pub open spec fn clamped(f: int, n: int) -> int {
    if f < 0 {
        0
    } else if f >= n {
        n - 1
    } else {
        f
    }
}

fn clamp_index(f: isize, n: usize) -> (r: usize)
    requires
        0 < n <= isize::MAX,
    ensures
        r == clamped(f as int, n as int),
{
    if f < 0 {
        0
    } else if f as usize >= n {
        n - 1
    } else {
        f as usize
    }
}

/// Number and coordinates of a cell undo each other.
pub proof fn index_round_trip(g: &TileGrid, x: int, y: int)
    requires
        0 <= x < g.width,
        0 <= y < g.height,
    ensures
        0 <= g.cell(x, y) < g.cells(),
        g.col(g.cell(x, y)) == x,
        g.row(g.cell(x, y)) == y,
{
    lemma_cell_bounds(x, y, g.width as int, g.height as int);
}

/// Coordinates and number of a cell undo each other.
pub proof fn coordinates_round_trip(g: &TileGrid, c: int)
    requires
        0 <= c < g.cells(),
    ensures
        0 <= g.col(c) < g.width,
        0 <= g.row(c) < g.height,
        g.cell(g.col(c), g.row(c)) == c,
{
    lemma_coordinates(c, g.width as int, g.height as int);
}

/// Two cells are one step apart exactly if they share a column or a row and are
/// next to each other in the other: there are no diagonal steps.
pub proof fn neighbours_share_an_edge(g: &TileGrid, x: int, y: int, u: int, v: int)
    requires
        0 <= x < g.width,
        0 <= y < g.height,
        0 <= u < g.width,
        0 <= v < g.height,
    ensures
        g.adjacent(g.cell(x, y), g.cell(u, v)) <==> (u == x + 1 && v == y) || (u == x - 1 && v == y)
            || (u == x && v == y + 1) || (u == x && v == y - 1),
        g.taxicab(g.cell(x, y), g.cell(u, v)) == 1 <==> g.adjacent(g.cell(x, y), g.cell(u, v)),
        g.taxicab(g.cell(x, y), g.cell(u, v)) == 0 <==> x == u && y == v,
{
    reveal(TileGrid::taxicab);
    index_round_trip(g, x, y);
    index_round_trip(g, u, v);
}

/// A coordinate off the map is brought to the nearest cell that is on it, and one
/// on the map stays.
pub proof fn clamping_goes_to_the_nearest(f: int, n: int, g: int)
    requires
        0 <= g < n,
    ensures
        0 <= clamped(f, n) < n,
        0 <= f < n ==> clamped(f, n) == f,
        (clamped(f, n) - f) * (clamped(f, n) - f) <= (g - f) * (g - f),
{
    let c = clamped(f, n);
    if f < 0 {
        assert((0 - f) * (0 - f) <= (g - f) * (g - f)) by (nonlinear_arith)
            requires
                f < 0,
                0 <= g,
        ;
    } else if f >= n {
        assert((n - 1 - f) * (n - 1 - f) <= (g - f) * (g - f)) by (nonlinear_arith)
            requires
                f >= n,
                g <= n - 1,
        ;
    } else {
        assert(0 <= (g - f) * (g - f)) by (nonlinear_arith);
    }
}

} // verus!
