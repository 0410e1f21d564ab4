//! Walks over a tile map, and the distance between two of its cells.

use vstd::prelude::*;

use crate::sim::pathfind::grid::TileGrid;

verus! {

/// `b` can be reached from `a` in exactly `k` steps.
#[verifier::opaque]
pub open spec fn walk(g: &TileGrid, a: int, b: int, k: nat) -> bool
    decreases k,
{
    if k == 0 {
        a == b && g.free(a)
    } else {
        exists|c: int| #[trigger] g.step(c, b) && walk(g, a, c, (k - 1) as nat)
    }
}

/// `b` can be reached from `a`.
pub open spec fn reach(g: &TileGrid, a: int, b: int) -> bool {
    exists|k: nat| walk(g, a, b, k)
}

/// `k` is the length of a shortest walk from `a` to `b`.
pub open spec fn shortest(g: &TileGrid, a: int, b: int, k: nat) -> bool {
    walk(g, a, b, k) && forall|j: nat| j < k ==> !walk(g, a, b, j)
}

/// The length of a shortest walk from `a` to `b`, where there is one.
#[verifier::opaque]
pub open spec fn dist(g: &TileGrid, a: int, b: int) -> nat {
    choose|k: nat| shortest(g, a, b, k)
}

proof fn lemma_shortest_exists(g: &TileGrid, a: int, b: int, k: nat)
    requires
        walk(g, a, b, k),
    ensures
        exists|j: nat| j <= k && shortest(g, a, b, j),
    decreases k,
{
    if forall|j: nat| j < k ==> !walk(g, a, b, j) {
        assert(shortest(g, a, b, k));
    } else {
        let j = choose|j: nat| j < k && walk(g, a, b, j);
        lemma_shortest_exists(g, a, b, j);
    }
}

/// No walk is shorter than the distance, and one is as short.
pub proof fn lemma_dist(g: &TileGrid, a: int, b: int, k: nat)
    requires
        walk(g, a, b, k),
    ensures
        reach(g, a, b),
        shortest(g, a, b, dist(g, a, b)),
        dist(g, a, b) <= k,
{
    reveal(dist);
    lemma_shortest_exists(g, a, b, k);
    let m = choose|j: nat| shortest(g, a, b, j);
    assert(shortest(g, a, b, m));
    let d = dist(g, a, b);
    assert(shortest(g, a, b, d));
    if k < d {
        assert(!walk(g, a, b, k));
    }
}

pub proof fn lemma_reach_dist(g: &TileGrid, a: int, b: int)
    requires
        reach(g, a, b),
    ensures
        walk(g, a, b, dist(g, a, b)),
        shortest(g, a, b, dist(g, a, b)),
        g.free(b),
{
    reveal_with_fuel(walk, 2);
    let k = choose|k: nat| walk(g, a, b, k);
    lemma_dist(g, a, b, k);
    let d = dist(g, a, b);
    if d > 0 {
        let c = choose|c: int| #[trigger] g.step(c, b) && walk(g, a, c, (d - 1) as nat);
        assert(g.step(c, b));
    }
}

/// A cell is at distance zero from itself alone.
pub proof fn lemma_dist_zero(g: &TileGrid, a: int, b: int)
    requires
        g.free(a),
    ensures
        walk(g, a, a, 0),
        reach(g, a, a),
        dist(g, a, a) == 0,
        reach(g, a, b) && dist(g, a, b) == 0 ==> a == b,
{
    reveal_with_fuel(walk, 2);
    lemma_dist(g, a, a, 0);
    if reach(g, a, b) && dist(g, a, b) == 0 {
        lemma_reach_dist(g, a, b);
    }
}

/// One step leads at most one further.
pub proof fn lemma_step_dist(g: &TileGrid, a: int, p: int, c: int)
    requires
        reach(g, a, p),
        g.step(p, c),
    ensures
        reach(g, a, c),
        dist(g, a, c) <= dist(g, a, p) + 1,
{
    reveal_with_fuel(walk, 2);
    lemma_reach_dist(g, a, p);
    let d = dist(g, a, p);
    assert(g.step(p, c) && walk(g, a, p, ((d + 1) - 1) as nat));
    assert(walk(g, a, c, d + 1));
    lemma_dist(g, a, c, d + 1);
}

/// A cell away from the start has a neighbour one step nearer to it.
pub proof fn lemma_nearer(g: &TileGrid, a: int, c: int) -> (p: int)
    requires
        reach(g, a, c),
        c != a,
    ensures
        g.step(p, c),
        reach(g, a, p),
        dist(g, a, p) + 1 == dist(g, a, c),
{
    reveal_with_fuel(walk, 2);
    lemma_reach_dist(g, a, c);
    let d = dist(g, a, c);
    assert(d > 0);
    let p = choose|p: int| #[trigger] g.step(p, c) && walk(g, a, p, (d - 1) as nat);
    lemma_dist(g, a, p, (d - 1) as nat);
    lemma_step_dist(g, a, p, c);
    p
}

/// A step can be taken back.
pub proof fn step_is_symmetric(g: &TileGrid, a: int, b: int)
    ensures
        g.step(a, b) == g.step(b, a),
{
}

proof fn lemma_walk_prepend(g: &TileGrid, a: int, b: int, c: int, k: nat)
    requires
        g.step(a, b),
        walk(g, b, c, k),
    ensures
        walk(g, a, c, k + 1),
    decreases k,
{
    reveal_with_fuel(walk, 2);
    if k == 0 {
        assert(walk(g, a, a, 0));
        assert(g.step(a, c) && walk(g, a, a, ((k + 1) - 1) as nat));
    } else {
        let m = choose|m: int| #[trigger] g.step(m, c) && walk(g, b, m, (k - 1) as nat);
        lemma_walk_prepend(g, a, b, m, (k - 1) as nat);
        assert(g.step(m, c) && walk(g, a, m, ((k + 1) - 1) as nat));
    }
}

/// A walk can be taken back.
pub proof fn walk_is_symmetric(g: &TileGrid, a: int, b: int, k: nat)
    requires
        walk(g, a, b, k),
    ensures
        walk(g, b, a, k),
    decreases k,
{
    reveal_with_fuel(walk, 2);
    if k > 0 {
        let c = choose|c: int| #[trigger] g.step(c, b) && walk(g, a, c, (k - 1) as nat);
        walk_is_symmetric(g, a, c, (k - 1) as nat);
        step_is_symmetric(g, c, b);
        lemma_walk_prepend(g, b, c, a, (k - 1) as nat);
    }
}

/// The way back is as long as the way there.
pub proof fn dist_is_symmetric(g: &TileGrid, a: int, b: int)
    ensures
        reach(g, a, b) == reach(g, b, a),
        reach(g, a, b) ==> dist(g, a, b) == dist(g, b, a),
{
    if reach(g, a, b) {
        lemma_reach_dist(g, a, b);
        walk_is_symmetric(g, a, b, dist(g, a, b));
        lemma_dist(g, b, a, dist(g, a, b));
    }
    if reach(g, b, a) {
        lemma_reach_dist(g, b, a);
        walk_is_symmetric(g, b, a, dist(g, b, a));
        lemma_dist(g, a, b, dist(g, b, a));
    }
}

/// The taxicab distance of two adjacent cells to a third differs by at most
/// one.
pub proof fn lemma_taxicab_step(g: &TileGrid, a: int, b: int, goal: int)
    requires
        g.adjacent(a, b),
    ensures
        g.taxicab(a, goal) <= g.taxicab(b, goal) + 1,
        g.taxicab(b, goal) <= g.taxicab(a, goal) + 1,
{
    reveal(TileGrid::taxicab);
}

/// The taxicab distance never exceeds the walking distance.
pub proof fn taxicab_is_admissible(g: &TileGrid, a: int, b: int, k: nat)
    requires
        walk(g, a, b, k),
    ensures
        g.taxicab(a, b) <= k,
    decreases k,
{
    reveal(TileGrid::taxicab);
    reveal_with_fuel(walk, 2);
    if k > 0 {
        let c = choose|c: int| #[trigger] g.step(c, b) && walk(g, a, c, (k - 1) as nat);
        taxicab_is_admissible(g, a, c, (k - 1) as nat);
        assert(g.taxicab(a, b) <= g.taxicab(a, c) + 1);
    }
}

proof fn lemma_walk_start_free(g: &TileGrid, a: int, b: int, k: nat)
    requires
        walk(g, a, b, k),
    ensures
        g.free(a),
    decreases k,
{
    reveal_with_fuel(walk, 2);
    if k > 0 {
        let c = choose|c: int| #[trigger] g.step(c, b) && walk(g, a, c, (k - 1) as nat);
        lemma_walk_start_free(g, a, c, (k - 1) as nat);
    }
}

/// A walk starts on walkable ground.
pub proof fn lemma_start_free(g: &TileGrid, a: int, b: int)
    requires
        reach(g, a, b),
    ensures
        g.free(a),
        g.free(b),
{
    lemma_reach_dist(g, a, b);
    lemma_walk_start_free(g, a, b, dist(g, a, b));
}

} // verus!
