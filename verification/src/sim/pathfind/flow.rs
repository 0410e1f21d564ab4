//! The flow field of a group move.

use vstd::prelude::*;

use crate::sim::pathfind::grid::TileGrid;
use crate::sim::pathfind::walks;

verus! {

/// `i` is the first position in `order` of a cell next to `c`.
pub open spec fn first_beside(g: &TileGrid, order: Seq<usize>, i: int, c: int) -> bool {
    &&& 0 <= i < order.len()
    &&& g.step(order[i] as int, c)
    &&& forall|k: int| 0 <= k < i ==> !g.step(#[trigger] order[k] as int, c)
}

/// `order` lists every cell that can be reached from `goal`, each once, the
/// goal first. After it a cell stands where the first of its neighbours calls
/// it up: those next to an earlier cell come first, and among cells first
/// called up by one neighbour the smaller number comes first.
pub open spec fn breadth_first(g: &TileGrid, goal: int, order: Seq<usize>) -> bool {
    &&& order.len() > 0 && order[0] == goal
    &&& forall|i: int, j: int|
        0 <= i < j < order.len() ==> #[trigger] order[i] != #[trigger] order[j]
    &&& forall|c: int| #[trigger]
        walks::reach(g, goal, c) <==> exists|i: int| 0 <= i < order.len() && #[trigger] order[i] == c
    &&& forall|i: int, j: int, a: int, b: int|
        0 < i < j < order.len() && #[trigger] first_beside(g, order, a, order[i] as int)
            && #[trigger] first_beside(g, order, b, order[j] as int) ==> a < b || (a == b
            && order[i] < order[j])
}

/// A group-move solution: one search outward from a goal that gives every
/// reachable cell the next step toward it.
pub struct FlowField {
    goal: usize,
    dist: Vec<u32>,
    from: Vec<usize>,
}

impl FlowField {
    pub closed spec fn toward(&self) -> usize {
        self.goal
    }

    /// Steps from a cell to the goal.
    pub closed spec fn steps(&self, c: int) -> Option<nat> {
        if 0 <= c < self.dist@.len() && self.dist@[c] != u32::MAX {
            Some(self.dist@[c] as nat)
        } else {
            None
        }
    }

    /// The cell to step to from a cell.
    pub closed spec fn onward(&self, c: int) -> Option<usize> {
        if 0 <= c < self.from@.len() && self.from@[c] != usize::MAX {
            Some(self.from@[c])
        } else {
            None
        }
    }

    /// Compute the field toward `goal`.
    pub fn compute(grid: &TileGrid, goal: usize) -> (r: Self)
        requires
            grid.wf(),
            grid.cells() <= u32::MAX,
        ensures
            grid.free(goal as int) ==> exists|order: Seq<usize>|
                breadth_first(grid, goal as int, order) && #[trigger] r.solves(grid, goal, order),
            !grid.free(goal as int) ==> r.solves(grid, goal, Seq::empty()),
    {
        let (r, _expanded) = Self::compute_counted(grid, goal);
        r
    }

    /// As [`FlowField::compute`], with the number of cells expanded: every cell
    /// that can reach the goal, once.
    pub fn compute_counted(grid: &TileGrid, goal: usize) -> (r: (Self, usize))
        requires
            grid.wf(),
            grid.cells() <= u32::MAX,
        ensures
            grid.free(goal as int) ==> exists|order: Seq<usize>|
                breadth_first(grid, goal as int, order) && #[trigger] r.0.solves(grid, goal, order)
                    && r.1 == order.len(),
            !grid.free(goal as int) ==> r.0.solves(grid, goal, Seq::empty()) && r.1 == 0,
    {
        let n: usize = grid.len();
        let mut dist: Vec<u32> = Vec::new();
        let mut from: Vec<usize> = Vec::new();
        let mut i: usize = 0;
        while i < n
            invariant
                i <= n,
                dist@.len() == i,
                from@.len() == i,
                forall|c: int| 0 <= c < i ==> #[trigger] dist@[c] == u32::MAX,
                forall|c: int| 0 <= c < i ==> #[trigger] from@[c] == usize::MAX,
            decreases n - i,
        {
            dist.push(u32::MAX);
            from.push(usize::MAX);
            i = i + 1;
        }
        if goal >= n || !grid.is_walkable(goal) {
            let r = FlowField { goal, dist, from };
            proof {
                assert forall|c: int| !walks::reach(grid, goal as int, c) by {
                    if walks::reach(grid, goal as int, c) {
                        walks::lemma_start_free(grid, goal as int, c);
                    }
                }
                assert(r.solves(grid, goal, Seq::empty()));
            }
            return (r, 0);
        }
        let mut order: Vec<usize> = Vec::new();
        let ghost mut par: Seq<int> = Seq::empty();
        dist.set(goal, 0);
        order.push(goal);
        proof {
            par = par.push(-1);
        }
        let mut neighbors: Vec<usize> = Vec::new();
        let mut head: usize = 0;
        assert(bfs_inv(grid, goal as int, order@, par, dist@, from@, 0)) by {
            assert(order@[0] == goal);
        }
        while head < order.len()
            invariant
                grid.wf(),
                grid.cells() <= u32::MAX,
                n == grid.cells(),
                grid.free(goal as int),
                head <= order@.len(),
                bfs_inv(grid, goal as int, order@, par, dist@, from@, head as int),
                forall|j: int| 0 < j < order@.len() ==> #[trigger] par[j] < head,
            decreases n - head,
        {
            let cell: usize = order[head];
            proof {
                lemma_order_fits(n as int, order@);
            }
            grid.walkable_neighbors(cell, &mut neighbors);
            proof {
                assert forall|k: int| 0 <= k < neighbors@.len() implies grid.step(
                    cell as int,
                    (#[trigger] neighbors@[k]) as int,
                ) by {
                    let c = neighbors@[k] as int;
                    assert(grid.free(c) && grid.adjacent(cell as int, c));
                }
            }
            let mut j: usize = 0;
            while j < neighbors.len()
                invariant
                    grid.wf(),
                    grid.cells() <= u32::MAX,
                    n == grid.cells(),
                    grid.free(goal as int),
                    head < order@.len(),
                    order@[head as int] == cell,
                    j <= neighbors@.len(),
                    bfs_inv(grid, goal as int, order@, par, dist@, from@, head as int),
                    forall|i: int, k: int|
                        0 <= i < k < neighbors@.len() ==> #[trigger] neighbors@[i]
                            < #[trigger] neighbors@[k],
                    forall|k: int|
                        0 <= k < neighbors@.len() ==> grid.step(
                            cell as int,
                            (#[trigger] neighbors@[k]) as int,
                        ),
                    forall|k: int|
                        0 <= k < j ==> dist@[(#[trigger] neighbors@[k]) as int] != u32::MAX,
                    forall|i: int, k: int|
                        0 < i < order@.len() && #[trigger] par[i] == head && j <= k
                            < neighbors@.len() ==> order@[i] < #[trigger] neighbors@[k],
                decreases neighbors@.len() - j,
            {
                let nb: usize = neighbors[j];
                assert(grid.step(cell as int, nb as int));
                if dist[nb] == u32::MAX {
                    proof {
                        lemma_order_fits(n as int, order@);
                        lemma_visit(
                            grid,
                            goal as int,
                            order@,
                            par,
                            dist@,
                            from@,
                            head as int,
                            nb,
                        );
                    }
                    let d: u32 = dist[cell] + 1;
                    dist.set(nb, d);
                    from.set(nb, cell);
                    order.push(nb);
                    proof {
                        par = par.push(head as int);
                    }
                }
                j = j + 1;
            }
            proof {
                assert forall|b: int| #[trigger] grid.step(cell as int, b) implies dist@[b]
                    != u32::MAX by {
                    assert(grid.free(b));
                }
            }
            head = head + 1;
        }
        let r = FlowField { goal, dist, from };
        proof {
            lemma_bfs_done(grid, goal, order@, par, r);
        }
        let out: (Self, usize) = (r, head);
        assert(out.0.solves(grid, goal, order@));
        out
    }

    /// The goal cell this field flows toward.
    pub fn goal(&self) -> (r: usize)
        ensures
            r == self.toward(),
    {
        self.goal
    }

    /// Whether the goal can be reached from `cell`. True for the goal itself.
    pub fn is_reachable(&self, cell: usize) -> (r: bool)
        ensures
            r == (self.steps(cell as int) is Some),
    {
        cell < self.dist.len() && self.dist[cell] != u32::MAX
    }

    /// Steps from `cell` to the goal, or `None` if it cannot be reached.
    pub fn distance(&self, cell: usize) -> (r: Option<u32>)
        ensures
            r is Some == self.steps(cell as int) is Some,
            r matches Some(d) ==> self.steps(cell as int) == Some(d as nat),
    {
        if self.is_reachable(cell) {
            Some(self.dist[cell])
        } else {
            None
        }
    }

    /// The next cell a unit on `cell` should move to. `None` at the goal and
    /// where the goal cannot be reached.
    pub fn next(&self, cell: usize) -> (r: Option<usize>)
        ensures
            r == self.onward(cell as int),
    {
        if cell < self.from.len() && self.from[cell] != usize::MAX {
            Some(self.from[cell])
        } else {
            None
        }
    }

    /// Whether `cell` carries a flow direction.
    pub fn has_direction(&self, cell: usize) -> (r: bool)
        ensures
            r == (self.onward(cell as int) is Some),
    {
        self.next(cell).is_some()
    }

    /// The field solves the group move to `goal`: it knows the exact distance
    /// of every cell that can reach the goal, and sends each of them but the
    /// goal to the neighbour that stands first in breadth-first order.
    pub open spec fn solves(&self, g: &TileGrid, goal: usize, order: Seq<usize>) -> bool {
        &&& self.toward() == goal
        &&& forall|c: int| #[trigger]
            self.steps(c) == if walks::reach(g, goal as int, c) {
                Some(walks::dist(g, goal as int, c))
            } else {
                None
            }
        &&& forall|c: int| #[trigger]
            self.onward(c) is Some <==> walks::reach(g, goal as int, c) && c != goal
        &&& forall|c: int, i: int| #[trigger]
            first_beside(g, order, i, c) && c != goal ==> self.onward(c) == Some(order[i])
    }
}

/// What the search knows with `order[..head]` expanded. `par[j]` is the
/// position of the cell that called up `order[j]`.
spec fn bfs_inv(
    g: &TileGrid,
    goal: int,
    order: Seq<usize>,
    par: Seq<int>,
    dist: Seq<u32>,
    from: Seq<usize>,
    head: int,
) -> bool {
    let n = g.cells();
    &&& order.len() > 0
    &&& order[0] == goal
    &&& par.len() == order.len()
    &&& dist.len() == n
    &&& from.len() == n
    &&& dist[goal] == 0
    &&& from[goal] == usize::MAX
    &&& forall|j: int| 0 <= j < order.len() ==> g.free(#[trigger] order[j] as int)
    &&& forall|i: int, j: int|
        0 <= i < j < order.len() ==> #[trigger] order[i] != #[trigger] order[j]
    &&& forall|j: int|
        0 < j < order.len() ==> {
            &&& 0 <= #[trigger] par[j] < j
            &&& par[j] <= head
            &&& first_beside(g, order, par[j], order[j] as int)
            &&& from[order[j] as int] == order[par[j]]
            &&& dist[order[j] as int] == dist[order[par[j]] as int] + 1
        }
    &&& forall|i: int, j: int|
        0 < i < j < order.len() ==> #[trigger] par[i] < #[trigger] par[j] || (par[i] == par[j]
            && order[i] < order[j])
    &&& forall|j: int| 0 <= j < order.len() ==> dist[#[trigger] order[j] as int] <= j
    &&& forall|c: int|
        0 <= c < n && #[trigger] dist[c] != u32::MAX ==> exists|j: int|
            0 <= j < order.len() && #[trigger] order[j] == c
    &&& forall|c: int| 0 <= c < n && #[trigger] from[c] != usize::MAX ==> dist[c] != u32::MAX
    &&& forall|i: int, b: int|
        0 <= i < head && i < order.len() && #[trigger] g.step(order[i] as int, b) ==> dist[b]
            != u32::MAX
}

proof fn lemma_order_fits(n: int, order: Seq<usize>)
    requires
        n >= 0,
        forall|j: int| 0 <= j < order.len() ==> #[trigger] order[j] < n,
        forall|i: int, j: int|
            0 <= i < j < order.len() ==> #[trigger] order[i] != #[trigger] order[j],
    ensures
        order.len() <= n,
{
    let ids = order.map_values(|c: usize| c as int);
    assert(ids.no_duplicates());
    ids.unique_seq_to_set();
    let all = vstd::set_lib::set_int_range(0, n);
    vstd::set_lib::lemma_int_range(0, n);
    assert(ids.to_set().subset_of(all));
    vstd::set_lib::lemma_len_subset(ids.to_set(), all);
}

/// Calling up one more cell keeps what is known.
proof fn lemma_visit(
    g: &TileGrid,
    goal: int,
    order: Seq<usize>,
    par: Seq<int>,
    dist: Seq<u32>,
    from: Seq<usize>,
    head: int,
    nb: usize,
)
    requires
        g.wf(),
        g.cells() <= u32::MAX,
        bfs_inv(g, goal, order, par, dist, from, head),
        0 <= head < order.len(),
        g.step(order[head] as int, nb as int),
        dist[nb as int] == u32::MAX,
        order.len() <= g.cells(),
        forall|i: int| 0 < i < order.len() && #[trigger] par[i] == head ==> order[i] < nb,
    ensures
        dist[order[head] as int] + 1 < u32::MAX,
        bfs_inv(
            g,
            goal,
            order.push(nb),
            par.push(head),
            dist.update(nb as int, (dist[order[head] as int] + 1) as u32),
            from.update(nb as int, order[head]),
            head,
        ),
{
    let o2 = order.push(nb);
    let p2 = par.push(head);
    let m = order.len() as int;
    assert forall|j: int| 0 <= j < m implies #[trigger] order[j] != nb by {
        assert(dist[order[j] as int] <= j);
    }
    assert(dist[order[head] as int] <= head);
    assert(head + 1 < u32::MAX) by {
        // `nb` is not listed, so the list is shorter than the map.
        let o3 = order.push(nb);
        assert forall|i: int, j: int| 0 <= i < j < o3.len() implies #[trigger] o3[i]
            != #[trigger] o3[j] by {
            assert(order[i] == o3[i]);
        }
        assert forall|j: int| 0 <= j < o3.len() implies #[trigger] o3[j] < g.cells() by {
            if j < m {
                assert(g.free(order[j] as int));
            }
        }
        lemma_order_fits(g.cells(), o3);
    }
    let d2 = dist.update(nb as int, (dist[order[head] as int] + 1) as u32);
    let f2 = from.update(nb as int, order[head]);
    assert(first_beside(g, o2, head, nb as int)) by {
        assert forall|k: int| 0 <= k < head implies !g.step(#[trigger] o2[k] as int, nb as int) by {
            if g.step(order[k] as int, nb as int) {
                assert(dist[nb as int] != u32::MAX);
            }
        }
    }
    assert forall|j: int| 0 < j < o2.len() implies {
        &&& 0 <= #[trigger] p2[j] < j
        &&& p2[j] <= head
        &&& first_beside(g, o2, p2[j], o2[j] as int)
        &&& f2[o2[j] as int] == o2[p2[j]]
        &&& d2[o2[j] as int] == d2[o2[p2[j]] as int] + 1
    } by {
        if j < m {
            assert(0 <= par[j] < j);
            assert(first_beside(g, order, par[j], order[j] as int));
            assert forall|k: int| 0 <= k < par[j] implies !g.step(
                #[trigger] o2[k] as int,
                o2[j] as int,
            ) by {
                assert(!g.step(order[k] as int, order[j] as int));
            }
        }
    }
    assert forall|i: int, j: int| 0 < i < j < o2.len() implies #[trigger] p2[i] < #[trigger] p2[j]
        || (p2[i] == p2[j] && o2[i] < o2[j]) by {
        assert(p2[i] == par[i]);
        if j < m {
            assert(p2[j] == par[j]);
        }
    }
    assert forall|c: int|
        0 <= c < g.cells() && #[trigger] d2[c] != u32::MAX implies exists|j: int|
        0 <= j < o2.len() && #[trigger] o2[j] == c by {
        if c == nb {
            assert(o2[m] == c);
        } else {
            assert(dist[c] != u32::MAX);
            let j = choose|j: int| 0 <= j < order.len() && #[trigger] order[j] == c;
            assert(o2[j] == c);
        }
    }
    assert forall|j: int| 0 <= j < o2.len() implies d2[#[trigger] o2[j] as int] <= j by {
        if j < m {
            assert(order[j] != nb);
        }
    }
    assert forall|i: int, b: int|
        0 <= i < head && i < o2.len() && #[trigger] g.step(o2[i] as int, b) implies d2[b]
        != u32::MAX by {
        assert(g.step(order[i] as int, b));
    }
    assert(g.free(order[0] as int));
    assert(order[0] != nb);
}

proof fn lemma_labels_grow(
    g: &TileGrid,
    goal: int,
    order: Seq<usize>,
    par: Seq<int>,
    dist: Seq<u32>,
    from: Seq<usize>,
    head: int,
    i: int,
    j: int,
)
    requires
        bfs_inv(g, goal, order, par, dist, from, head),
        0 <= i <= j < order.len(),
    ensures
        dist[order[i] as int] <= dist[order[j] as int],
    decreases j,
{
    if 0 < i < j {
        assert(par[i] <= par[j]);
        assert(0 <= par[i] < i && 0 <= par[j] < j);
        lemma_labels_grow(g, goal, order, par, dist, from, head, par[i], par[j]);
    }
}

proof fn lemma_label_sound(
    g: &TileGrid,
    goal: int,
    order: Seq<usize>,
    par: Seq<int>,
    dist: Seq<u32>,
    from: Seq<usize>,
    head: int,
    j: int,
)
    requires
        bfs_inv(g, goal, order, par, dist, from, head),
        0 <= j < order.len(),
    ensures
        walks::walk(g, goal, order[j] as int, dist[order[j] as int] as nat),
    decreases j,
{
    reveal_with_fuel(walks::walk, 2);
    assert(g.free(order[j] as int));
    if j > 0 {
        let p = par[j];
        assert(0 <= p < j);
        assert(first_beside(g, order, p, order[j] as int));
        lemma_label_sound(g, goal, order, par, dist, from, head, p);
        let k = dist[order[j] as int] as nat;
        assert(dist[order[p] as int] as nat == (k - 1) as nat);
        assert(g.step(order[p] as int, order[j] as int) && walks::walk(
            g,
            goal,
            order[p] as int,
            (k - 1) as nat,
        ));
    }
}

proof fn lemma_label_least(
    g: &TileGrid,
    goal: int,
    order: Seq<usize>,
    par: Seq<int>,
    dist: Seq<u32>,
    from: Seq<usize>,
    c: int,
    k: nat,
)
    requires
        g.wf(),
        bfs_inv(g, goal, order, par, dist, from, order.len() as int),
        walks::walk(g, goal, c, k),
    ensures
        0 <= c < g.cells(),
        dist[c] != u32::MAX,
        dist[c] <= k,
    decreases k,
{
    reveal_with_fuel(walks::walk, 2);
    if k > 0 {
        let p = choose|p: int| #[trigger]
            g.step(p, c) && walks::walk(g, goal, p, (k - 1) as nat);
        lemma_label_least(g, goal, order, par, dist, from, p, (k - 1) as nat);
        let i = choose|i: int| 0 <= i < order.len() && #[trigger] order[i] == p;
        assert(g.step(order[i] as int, c));
        assert(dist[c] != u32::MAX);
        let j = choose|j: int| 0 <= j < order.len() && #[trigger] order[j] == c;
        if j > 0 {
            assert(0 <= par[j] < j);
            assert(first_beside(g, order, par[j], order[j] as int));
            if i < par[j] {
                assert(!g.step(order[i] as int, order[j] as int));
            }
            lemma_labels_grow(g, goal, order, par, dist, from, order.len() as int, par[j], i);
        }
    }
}

proof fn lemma_bfs_done(
    g: &TileGrid,
    goal: usize,
    order: Seq<usize>,
    par: Seq<int>,
    field: FlowField,
)
    requires
        g.wf(),
        g.cells() <= u32::MAX,
        field.goal == goal,
        bfs_inv(g, goal as int, order, par, field.dist@, field.from@, order.len() as int),
    ensures
        breadth_first(g, goal as int, order),
        field.solves(g, goal, order),
{
    let t = goal as int;
    let (dist, from) = (field.dist@, field.from@);
    let m = order.len() as int;
    assert forall|c: int| #[trigger] walks::reach(g, t, c) <==> (0 <= c < g.cells() && dist[c]
        != u32::MAX) by {
        if walks::reach(g, t, c) {
            walks::lemma_reach_dist(g, t, c);
            lemma_label_least(g, t, order, par, dist, from, c, walks::dist(g, t, c));
        }
        if 0 <= c < g.cells() && dist[c] != u32::MAX {
            let j = choose|j: int| 0 <= j < order.len() && #[trigger] order[j] == c;
            lemma_label_sound(g, t, order, par, dist, from, m, j);
        }
    }
    assert forall|j: int| 0 <= j < m implies walks::reach(g, t, #[trigger] order[j] as int) by {
        lemma_label_sound(g, t, order, par, dist, from, m, j);
    }
    assert forall|c: int| #[trigger]
        walks::reach(g, t, c) <==> exists|i: int| 0 <= i < order.len() && #[trigger] order[i]
        == c by {
        if walks::reach(g, t, c) {
            assert(dist[c] != u32::MAX);
        }
    }
    assert forall|i: int, j: int, a: int, b: int|
        0 < i < j < order.len() && #[trigger] first_beside(g, order, a, order[i] as int)
            && #[trigger] first_beside(g, order, b, order[j] as int) implies a < b || (a == b
        && order[i] < order[j]) by {
        lemma_first_unique(g, order, a, par[i], order[i] as int);
        lemma_first_unique(g, order, b, par[j], order[j] as int);
    }
    assert forall|c: int| #[trigger] field.steps(c) == if walks::reach(g, t, c) {
        Some(walks::dist(g, t, c))
    } else {
        None
    } by {
        if walks::reach(g, t, c) {
            walks::lemma_reach_dist(g, t, c);
            lemma_label_least(g, t, order, par, dist, from, c, walks::dist(g, t, c));
            let j = choose|j: int| 0 <= j < order.len() && #[trigger] order[j] == c;
            lemma_label_sound(g, t, order, par, dist, from, m, j);
            walks::lemma_dist(g, t, c, dist[c] as nat);
        }
    }
    assert forall|c: int| #[trigger] field.onward(c) is Some <==> walks::reach(g, t, c) && c
        != goal by {
        if walks::reach(g, t, c) && c != goal {
            let j = choose|j: int| 0 <= j < order.len() && #[trigger] order[j] == c;
            assert(0 <= par[j] < j);
            assert(g.free(order[par[j]] as int));
        }
    }
    assert forall|c: int, i: int| #[trigger] first_beside(g, order, i, c) && c
        != goal implies field.onward(c) == Some(order[i]) by {
        walks::lemma_step_dist(g, t, order[i] as int, c);
        let j = choose|j: int| 0 <= j < order.len() && #[trigger] order[j] == c;
        assert(0 <= par[j] < j);
        lemma_first_unique(g, order, i, par[j], c);
        assert(g.free(order[i] as int));
    }
}

proof fn lemma_first_unique(g: &TileGrid, order: Seq<usize>, a: int, b: int, c: int)
    requires
        first_beside(g, order, a, c),
        first_beside(g, order, b, c),
    ensures
        a == b,
{
    if a < b {
        assert(!g.step(order[a] as int, c));
    } else if b < a {
        assert(!g.step(order[b] as int, c));
    }
}

proof fn lemma_called_earlier(g: &TileGrid, goal: int, order: Seq<usize>, j: int) -> (a: int)
    requires
        breadth_first(g, goal, order),
        0 < j < order.len(),
    ensures
        first_beside(g, order, a, order[j] as int),
        a < j,
{
    let c = order[j] as int;
    assert(walks::reach(g, goal, c)) by {
        assert(order[j] == c);
    }
    let p = walks::lemma_nearer(g, goal, c);
    let i = choose|i: int| 0 <= i < order.len() && #[trigger] order[i] == p;
    let a = lemma_first_exists(g, order, i, c);
    if a >= j {
        walks::lemma_reach_dist(g, goal, c);
        lemma_prefix_closed(g, goal, order, j, a, c, walks::dist(g, goal, c));
        let k = choose|k: int| 0 <= k < j && #[trigger] order[k] == c;
        assert(order[k] != order[j]);
    }
    a
}

proof fn lemma_first_exists(g: &TileGrid, order: Seq<usize>, i: int, c: int) -> (a: int)
    requires
        0 <= i < order.len(),
        g.step(order[i] as int, c),
    ensures
        first_beside(g, order, a, c),
        a <= i,
    decreases i,
{
    if forall|k: int| 0 <= k < i ==> !g.step(#[trigger] order[k] as int, c) {
        i
    } else {
        let k = choose|k: int| 0 <= k < i && g.step(#[trigger] order[k] as int, c);
        lemma_first_exists(g, order, k, c)
    }
}

/// If the cell at `j` is first called up from `j` on, no step leaves the cells
/// before it.
proof fn lemma_prefix_closed(
    g: &TileGrid,
    goal: int,
    order: Seq<usize>,
    j: int,
    a: int,
    c: int,
    k: nat,
)
    requires
        breadth_first(g, goal, order),
        0 < j < order.len(),
        first_beside(g, order, a, order[j] as int),
        a >= j,
        walks::walk(g, goal, c, k),
    ensures
        exists|i: int| 0 <= i < j && #[trigger] order[i] == c,
    decreases k,
{
    reveal_with_fuel(walks::walk, 2);
    if k == 0 {
        assert(order[0] == c);
    } else {
        let p = choose|p: int| #[trigger]
            g.step(p, c) && walks::walk(g, goal, p, (k - 1) as nat);
        lemma_prefix_closed(g, goal, order, j, a, p, (k - 1) as nat);
        let i = choose|i: int| 0 <= i < j && #[trigger] order[i] == p;
        walks::lemma_dist(g, goal, c, k);
        assert(walks::reach(g, goal, c));
        let m = choose|m: int| 0 <= m < order.len() && #[trigger] order[m] == c;
        let b = lemma_first_exists(g, order, i, c);
        if m >= j {
            assert(m != j);
            assert(first_beside(g, order, b, order[m] as int));
            assert(a < b || a == b);
        }
    }
}

/// There is one breadth-first order of the cells around a goal, so a field
/// that solves a group move is the only one that does.
pub proof fn breadth_first_is_unique(g: &TileGrid, goal: int, o1: Seq<usize>, o2: Seq<usize>)
    requires
        breadth_first(g, goal, o1),
        breadth_first(g, goal, o2),
    ensures
        o1 == o2,
{
    lemma_same_prefix(g, goal, o1, o2, o1.len() as int);
    lemma_same_prefix(g, goal, o2, o1, o2.len() as int);
    assert(o1 =~= o2);
}

proof fn lemma_same_prefix(g: &TileGrid, goal: int, o1: Seq<usize>, o2: Seq<usize>, n: int)
    requires
        breadth_first(g, goal, o1),
        breadth_first(g, goal, o2),
        0 <= n <= o1.len(),
    ensures
        n <= o2.len(),
        forall|i: int| 0 <= i < n ==> #[trigger] o1[i] == o2[i],
    decreases n,
{
    if n > 1 {
        let i = n - 1;
        lemma_same_prefix(g, goal, o1, o2, i);
        let c1 = o1[i] as int;
        assert(walks::reach(g, goal, c1)) by {
            assert(o1[i] == c1);
        }
        let j = choose|j: int| 0 <= j < o2.len() && #[trigger] o2[j] == c1;
        assert(j >= i) by {
            if j < i {
                assert(o1[j] != o1[i]);
            }
        }
        let c2 = o2[i] as int;
        assert(walks::reach(g, goal, c2)) by {
            assert(o2[i] == c2);
        }
        let k = choose|k: int| 0 <= k < o1.len() && #[trigger] o1[k] == c2;
        assert(k >= i) by {
            if k < i {
                assert(o2[k] != o2[i]);
            }
        }
        if c1 != c2 {
            let a1 = lemma_called_earlier(g, goal, o1, i);
            let a2 = lemma_called_earlier(g, goal, o2, i);
            assert forall|m: int| 0 <= m < a1 implies !g.step(#[trigger] o2[m] as int, c1) by {
                assert(o1[m] == o2[m]);
            }
            assert forall|m: int| 0 <= m < a2 implies !g.step(#[trigger] o1[m] as int, c2) by {
                assert(o1[m] == o2[m]);
            }
            assert(o1[a1] == o2[a1]);
            assert(o1[a2] == o2[a2]);
            assert(first_beside(g, o2, a1, c1));
            assert(first_beside(g, o1, a2, c2));
            assert(first_beside(g, o1, a2, o1[k] as int));
            assert(first_beside(g, o2, a1, o2[j] as int));
        }
    }
}

/// A cell carries a direction exactly when a path leads from it to the goal
/// and it is not the goal; that is when the path search finds one.
pub proof fn direction_iff_path(field: FlowField, g: &TileGrid, goal: usize, order: Seq<usize>, c: int)
    requires
        field.solves(g, goal, order),
    ensures
        field.onward(c) is Some <==> c != goal && walks::reach(g, c, goal as int),
        field.steps(c) is Some <==> walks::reach(g, c, goal as int),
        field.steps(c) matches Some(d) ==> d == walks::dist(g, c, goal as int),
{
    walks::dist_is_symmetric(g, goal as int, c);
}

/// Each step of the field is a step over walkable ground and leads one nearer
/// to the goal, so a unit that follows the field arrives.
pub proof fn field_leads_nearer(field: FlowField, g: &TileGrid, goal: usize, order: Seq<usize>, c: int)
    requires
        breadth_first(g, goal as int, order),
        field.solves(g, goal, order),
        field.onward(c) is Some,
    ensures
        g.step(c, field.onward(c)->0 as int),
        field.steps(c) is Some,
        field.steps(field.onward(c)->0 as int) == Some((field.steps(c)->0 - 1) as nat),
        field.steps(c)->0 > 0,
{
    let t = goal as int;
    let p = walks::lemma_nearer(g, t, c);
    let i = choose|i: int| 0 <= i < order.len() && #[trigger] order[i] == p;
    let a = lemma_first_exists(g, order, i, c);
    let q = order[a] as int;
    assert(field.onward(c) == Some(order[a]));
    walks::step_is_symmetric(g, q, c);
    walks::lemma_step_dist(g, t, q, c);
    breadth_first_by_distance(g, t, order, a, i);
    assert(walks::reach(g, t, q)) by {
        assert(order[a] == q);
    }
    assert(field.steps(q) == Some(walks::dist(g, t, q)));
    assert(field.steps(c) == Some(walks::dist(g, t, c)));
}

/// How many calls lead to the cell at position `j`.
spec fn depth(g: &TileGrid, order: Seq<usize>, j: int) -> nat
    decreases j,
{
    let a = choose|a: int| first_beside(g, order, a, order[j] as int);
    if 0 <= a < j {
        depth(g, order, a) + 1
    } else {
        0
    }
}

proof fn lemma_depth(g: &TileGrid, goal: int, order: Seq<usize>, j: int) -> (a: int)
    requires
        breadth_first(g, goal, order),
        0 < j < order.len(),
    ensures
        first_beside(g, order, a, order[j] as int),
        0 <= a < j,
        depth(g, order, j) == depth(g, order, a) + 1,
{
    let a = lemma_called_earlier(g, goal, order, j);
    let b = choose|b: int| first_beside(g, order, b, order[j] as int);
    lemma_first_unique(g, order, a, b, order[j] as int);
    a
}

proof fn lemma_depth_grows(g: &TileGrid, goal: int, order: Seq<usize>, i: int, j: int)
    requires
        breadth_first(g, goal, order),
        0 <= i <= j < order.len(),
    ensures
        depth(g, order, i) <= depth(g, order, j),
    decreases j,
{
    if 0 < i < j {
        let a = lemma_depth(g, goal, order, i);
        let b = lemma_depth(g, goal, order, j);
        assert(a <= b);
        lemma_depth_grows(g, goal, order, a, b);
    }
}

proof fn lemma_depth_least(g: &TileGrid, goal: int, order: Seq<usize>, j: int, k: nat)
    requires
        breadth_first(g, goal, order),
        0 <= j < order.len(),
        walks::walk(g, goal, order[j] as int, k),
    ensures
        depth(g, order, j) <= k,
    decreases k,
{
    reveal_with_fuel(walks::walk, 2);
    if k > 0 && j > 0 {
        let c = order[j] as int;
        let p = choose|p: int| #[trigger]
            g.step(p, c) && walks::walk(g, goal, p, (k - 1) as nat);
        walks::lemma_dist(g, goal, p, (k - 1) as nat);
        assert(walks::reach(g, goal, p));
        let i = choose|i: int| 0 <= i < order.len() && #[trigger] order[i] == p;
        lemma_depth_least(g, goal, order, i, (k - 1) as nat);
        let a = lemma_depth(g, goal, order, j);
        if i < a {
            assert(!g.step(order[i] as int, c));
        }
        lemma_depth_grows(g, goal, order, a, i);
    } else if j > 0 {
        assert(order[0] != order[j]);
    }
}

proof fn lemma_depth_walk(g: &TileGrid, goal: int, order: Seq<usize>, j: int)
    requires
        breadth_first(g, goal, order),
        0 <= j < order.len(),
    ensures
        walks::walk(g, goal, order[j] as int, depth(g, order, j)),
    decreases j,
{
    reveal_with_fuel(walks::walk, 2);
    if j > 0 {
        let a = lemma_depth(g, goal, order, j);
        lemma_depth_walk(g, goal, order, a);
        let k = depth(g, order, j);
        assert(g.step(order[a] as int, order[j] as int) && walks::walk(
            g,
            goal,
            order[a] as int,
            (k - 1) as nat,
        ));
    } else {
        let c = order[0] as int;
        assert(walks::reach(g, goal, c)) by {
            assert(order[0] == c);
        }
        walks::lemma_start_free(g, goal, c);
        assert(depth(g, order, 0) == 0);
    }
}

/// A breadth-first order never goes back to a smaller distance.
pub proof fn breadth_first_by_distance(g: &TileGrid, goal: int, order: Seq<usize>, i: int, j: int)
    requires
        breadth_first(g, goal, order),
        0 <= i <= j < order.len(),
    ensures
        walks::reach(g, goal, order[i] as int),
        walks::reach(g, goal, order[j] as int),
        walks::dist(g, goal, order[i] as int) <= walks::dist(g, goal, order[j] as int),
{
    lemma_depth_walk(g, goal, order, i);
    lemma_depth_walk(g, goal, order, j);
    walks::lemma_dist(g, goal, order[i] as int, depth(g, order, i));
    walks::lemma_dist(g, goal, order[j] as int, depth(g, order, j));
    lemma_depth_least(g, goal, order, j, walks::dist(g, goal, order[j] as int));
    lemma_depth_grows(g, goal, order, i, j);
}

} // verus!
