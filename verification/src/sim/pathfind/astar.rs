//! The path search.
//!
//! The search settles cells in the order of their rank `(d + h, d, cell)`,
//! where `d` is the distance from the start and `h` the taxicab distance to the
//! goal. Everything it returns follows from that order.

use vstd::multiset::Multiset;
use vstd::prelude::*;

use crate::sim::pathfind::grid::TileGrid;
use crate::sim::pathfind::open_set;
use crate::sim::pathfind::open_set::{Entry, OpenSet};
use crate::sim::pathfind::walks;

verus! {

/// The lexicographic order of two triples, strictly.
pub open spec fn rank_lt(a: (int, int, int), b: (int, int, int)) -> bool {
    a.0 < b.0 || (a.0 == b.0 && (a.1 < b.1 || (a.1 == b.1 && a.2 < b.2)))
}

/// The lexicographic order of two triples.
pub open spec fn rank_le(a: (int, int, int), b: (int, int, int)) -> bool {
    a == b || rank_lt(a, b)
}

/// The rank of a cell: the length of a shortest route over it if nothing were
/// in the way behind it, its distance from the start, its number.
pub open spec fn rank(g: &TileGrid, start: int, goal: int, c: int) -> (int, int, int) {
    let d = walks::dist(g, start, c) as int;
    (d + g.taxicab(c, goal), d, c)
}

/// `p` is the cell that a shortest path enters `c` from: a neighbour one step
/// nearer to the start, of these one nearest to the goal by taxicab distance,
/// of these the one with the smallest number.
pub open spec fn enters_from(g: &TileGrid, start: int, goal: int, p: int, c: int) -> bool {
    &&& walks::reach(g, start, p)
    &&& g.step(p, c)
    &&& walks::dist(g, start, p) + 1 == walks::dist(g, start, c)
    &&& forall|q: int| #[trigger]
        g.step(q, c) && walks::reach(g, start, q) && walks::dist(g, start, q) + 1 == walks::dist(
            g,
            start,
            c,
        ) ==> {
            ||| g.taxicab(p, goal) < g.taxicab(q, goal)
            ||| g.taxicab(p, goal) == g.taxicab(q, goal) && p <= q
        }
}

/// `path` leads from `start` to `goal`, each cell entered from the one before.
pub open spec fn is_path(g: &TileGrid, start: int, goal: int, path: Seq<usize>) -> bool {
    &&& path.len() == walks::dist(g, start, goal) + 1
    &&& path[0] == start
    &&& path.last() == goal
    &&& forall|i: int|
        0 < i < path.len() ==> enters_from(
            g,
            start,
            goal,
            path[i - 1] as int,
            (#[trigger] path[i]) as int,
        )
}

/// The cells that can be reached from `start`.
pub open spec fn region(g: &TileGrid, start: int) -> Set<int> {
    Set::new(|c: int| walks::reach(g, start, c))
}

/// The cells that can be reached and rank no later than the goal.
pub open spec fn ranked_to_goal(g: &TileGrid, start: int, goal: int) -> Set<int> {
    Set::new(
        |c: int|
            walks::reach(g, start, c) && rank_le(
                rank(g, start, goal, c),
                rank(g, start, goal, goal),
            ),
    )
}

pub open spec fn entry_rank(e: Entry) -> (int, int, int) {
    (e.0 as int, e.1 as int, e.2 as int)
}

/// What the search knows. `settled` are the cells taken from the open set; the
/// steps from `cur` to the cells in `left` have not been looked at yet.
spec fn search_inv(
    g: &TileGrid,
    start: int,
    goal: int,
    score: Seq<u32>,
    came: Seq<usize>,
    open: Multiset<Entry>,
    settled: Set<int>,
    cur: int,
    left: Set<int>,
) -> bool {
    let n = g.cells();
    &&& score.len() == n
    &&& came.len() == n
    &&& settled.finite()
    &&& score[start] == 0
    &&& forall|c: int|
        0 <= c < n && #[trigger] score[c] != u32::MAX ==> walks::walk(
            g,
            start,
            c,
            score[c] as nat,
        )
    &&& forall|c: int| #[trigger]
        settled.contains(c) ==> 0 <= c < n && walks::reach(g, start, c) && score[c] == walks::dist(
            g,
            start,
            c,
        ) && score[c] < settled.len()
    &&& forall|c: int, b: int|
        settled.contains(c) && #[trigger] g.step(c, b) && !(c == cur && left.contains(b))
            ==> score[b] <= score[c] + 1 && (score[b] == score[c] + 1 && b != start ==> rank_le(
            rank(g, start, goal, came[b] as int),
            rank(g, start, goal, c),
        ))
    &&& forall|c: int|
        0 <= c < n && score[c] != u32::MAX && c != start ==> settled.contains(
            #[trigger] came[c] as int,
        ) && g.step(came[c] as int, c) && score[c] == score[came[c] as int] + 1
    &&& forall|e: Entry| #[trigger]
        open.count(e) > 0 ==> {
            &&& e.2 < n
            &&& score[e.2 as int] < u32::MAX
            &&& score[e.2 as int] <= e.1
            &&& e.0 == e.1 + g.taxicab(e.2 as int, goal)
            &&& e.1 == score[e.2 as int] ==> open.count(e) == 1 && !settled.contains(e.2 as int)
        }
    &&& forall|c: int|
        0 <= c < n && #[trigger] score[c] != u32::MAX && !settled.contains(c) ==> open.count(
            ((score[c] + g.taxicab(c, goal)) as u64, score[c] as u64, c as usize),
        ) > 0
    &&& forall|c: int, b: int|
        #![trigger settled.contains(c), settled.contains(b)]
        settled.contains(c) && walks::reach(g, start, b) && rank_lt(
            rank(g, start, goal, b),
            rank(g, start, goal, c),
        ) ==> settled.contains(b)
}

/// While a reachable cell is not settled, the open set holds a candidate that
/// ranks no later.
proof fn lemma_frontier(
    g: &TileGrid,
    start: int,
    goal: int,
    score: Seq<u32>,
    came: Seq<usize>,
    open: Multiset<Entry>,
    settled: Set<int>,
    c: int,
) -> (e: Entry)
    requires
        g.wf(),
        g.cells() <= u32::MAX,
        g.free(start),
        g.free(goal),
        search_inv(g, start, goal, score, came, open, settled, -1, Set::empty()),
        walks::reach(g, start, c),
        !settled.contains(c),
    ensures
        open.count(e) > 0,
        rank_le(entry_rank(e), rank(g, start, goal, c)),
    decreases walks::dist(g, start, c),
{
    walks::lemma_reach_dist(g, start, c);
    if c == start {
        walks::lemma_dist_zero(g, start, start);
        let e = ((score[c] + g.taxicab(c, goal)) as u64, score[c] as u64, c as usize);
        lemma_taxicab_small(g, c, goal);
        assert(score[c] != u32::MAX);
        e
    } else {
        let p = walks::lemma_nearer(g, start, c);
        walks::lemma_reach_dist(g, start, p);
        walks::lemma_taxicab_step(g, p, c, goal);
        if settled.contains(p) {
            assert(score[c] <= score[p] + 1);
            assert(score[p] < settled.len());
            lemma_settled_small(g, start, goal, score, came, open, settled, -1, Set::empty());
            if score[c] == u32::MAX {
                // Every cell is settled then, `c` among them.
                assert(settled.len() == g.cells());
                lemma_all_settled(g.cells(), settled, c);
            }
            walks::lemma_dist(g, start, c, score[c] as nat);
            lemma_taxicab_small(g, c, goal);
            ((score[c] + g.taxicab(c, goal)) as u64, score[c] as u64, c as usize)
        } else {
            lemma_frontier(g, start, goal, score, came, open, settled, p)
        }
    }
}

proof fn lemma_taxicab_small(g: &TileGrid, a: int, b: int)
    requires
        g.wf(),
        0 <= a < g.cells(),
        0 <= b < g.cells(),
    ensures
        0 <= g.taxicab(a, b) < g.cells(),
{
    reveal(TileGrid::taxicab);
    crate::sim::pathfind::grid::coordinates_round_trip(g, a);
    crate::sim::pathfind::grid::coordinates_round_trip(g, b);
    assert(g.width + g.height <= g.width * g.height + 1) by (nonlinear_arith)
        requires
            g.width >= 1,
            g.height >= 1,
    ;
}

proof fn lemma_settled_small(
    g: &TileGrid,
    start: int,
    goal: int,
    score: Seq<u32>,
    came: Seq<usize>,
    open: Multiset<Entry>,
    settled: Set<int>,
    cur: int,
    left: Set<int>,
)
    requires
        g.wf(),
        search_inv(g, start, goal, score, came, open, settled, cur, left),
    ensures
        settled.len() <= g.cells(),
{
    lemma_len_below(g.cells(), settled);
}

/// A set of cell numbers holds at most that many.
proof fn lemma_len_below(n: int, s: Set<int>)
    requires
        n >= 0,
        s.finite(),
        forall|c: int| #[trigger] s.contains(c) ==> 0 <= c < n,
    ensures
        s.len() <= n,
{
    let all = vstd::set_lib::set_int_range(0, n);
    vstd::set_lib::lemma_int_range(0, n);
    assert(s.subset_of(all));
    vstd::set_lib::lemma_len_subset(s, all);
}

proof fn lemma_all_settled(n: int, s: Set<int>, c: int)
    requires
        s.finite(),
        forall|b: int| #[trigger] s.contains(b) ==> 0 <= b < n,
        s.len() >= n,
        0 <= c < n,
    ensures
        s.contains(c),
{
    if !s.contains(c) {
        lemma_len_below(n, s.insert(c));
    }
}

/// The cells of `list` from position `j` on.
spec fn rest(list: Seq<usize>, j: int) -> Set<int> {
    Set::new(|b: int| exists|i: int| j <= i < list.len() && #[trigger] list[i] == b)
}

/// A candidate that a better one has overtaken can be dropped.
proof fn lemma_drop_stale(
    g: &TileGrid,
    start: int,
    goal: int,
    score: Seq<u32>,
    came: Seq<usize>,
    open: Multiset<Entry>,
    settled: Set<int>,
    e: Entry,
)
    requires
        g.wf(),
        search_inv(g, start, goal, score, came, open, settled, -1, Set::empty()),
        open.count(e) > 0,
        e.1 > score[e.2 as int],
    ensures
        search_inv(g, start, goal, score, came, open.remove(e), settled, -1, Set::empty()),
{
    broadcast use vstd::multiset::group_multiset_axioms;

    let after = open.remove(e);
    assert forall|x: Entry| #[trigger] after.count(x) > 0 implies open.count(x) > 0 && after.count(x)
        <= open.count(x) by {}
    assert forall|x: Entry| #[trigger] after.count(x) > 0 && x.1 == score[x.2 as int] implies
        after.count(x) == 1 && !settled.contains(x.2 as int) by {
        assert(open.count(x) > 0);
    }
    assert forall|b: int|
        0 <= b < g.cells() && #[trigger] score[b] != u32::MAX && !settled.contains(
            b,
        ) implies after.count(
        ((score[b] + g.taxicab(b, goal)) as u64, score[b] as u64, b as usize),
    ) > 0 by {
        let x = ((score[b] + g.taxicab(b, goal)) as u64, score[b] as u64, b as usize);
        assert(open.count(x) > 0);
        assert(x.2 == b);
    }
}

/// The least candidate, where no better one overtook it, has the exact
/// distance of its cell, and every cell that ranks before it is settled.
proof fn lemma_least_is_exact(
    g: &TileGrid,
    start: int,
    goal: int,
    score: Seq<u32>,
    came: Seq<usize>,
    open: Multiset<Entry>,
    settled: Set<int>,
    e: Entry,
)
    requires
        g.wf(),
        g.cells() <= u32::MAX,
        g.free(start),
        g.free(goal),
        search_inv(g, start, goal, score, came, open, settled, -1, Set::empty()),
        open.count(e) > 0,
        e.1 == score[e.2 as int],
        e.1 < u32::MAX,
        forall|x: Entry| open.count(x) > 0 ==> #[trigger] open_set::entry_le(e, x),
    ensures
        walks::reach(g, start, e.2 as int),
        e.1 == walks::dist(g, start, e.2 as int),
        entry_rank(e) == rank(g, start, goal, e.2 as int),
        !settled.contains(e.2 as int),
        forall|b: int| #[trigger]
            walks::reach(g, start, b) && rank_lt(
                rank(g, start, goal, b),
                rank(g, start, goal, e.2 as int),
            ) ==> settled.contains(b),
        forall|b: int| #[trigger]
            settled.contains(b) ==> rank_lt(
                rank(g, start, goal, b),
                rank(g, start, goal, e.2 as int),
            ),
{
    let c = e.2 as int;
    walks::lemma_dist(g, start, c, score[c] as nat);
    let x = lemma_frontier(g, start, goal, score, came, open, settled, c);
    assert(open_set::entry_le(e, x));
    assert(e.1 == walks::dist(g, start, c));
    assert forall|b: int| #[trigger]
        walks::reach(g, start, b) && rank_lt(
            rank(g, start, goal, b),
            rank(g, start, goal, c),
        ) implies settled.contains(b) by {
        if !settled.contains(b) {
            let y = lemma_frontier(g, start, goal, score, came, open, settled, b);
            assert(open_set::entry_le(e, y));
        }
    }
    assert forall|b: int| #[trigger] settled.contains(b) implies rank_lt(
        rank(g, start, goal, b),
        rank(g, start, goal, c),
    ) by {
        if !rank_lt(rank(g, start, goal, b), rank(g, start, goal, c)) {
            assert(b != c);
            assert(rank_lt(rank(g, start, goal, c), rank(g, start, goal, b)));
            assert(settled.contains(b) && walks::reach(g, start, c));
            assert(settled.contains(c));
        }
    }
}

/// Settling the least candidate.
proof fn lemma_settle(
    g: &TileGrid,
    start: int,
    goal: int,
    score: Seq<u32>,
    came: Seq<usize>,
    open: Multiset<Entry>,
    settled: Set<int>,
    e: Entry,
    left: Set<int>,
)
    requires
        g.wf(),
        g.cells() <= u32::MAX,
        g.free(start),
        g.free(goal),
        search_inv(g, start, goal, score, came, open, settled, -1, Set::empty()),
        open.count(e) > 0,
        e.1 == score[e.2 as int],
        e.1 < u32::MAX,
        forall|x: Entry| open.count(x) > 0 ==> #[trigger] open_set::entry_le(e, x),
        forall|b: int| #[trigger] g.step(e.2 as int, b) ==> left.contains(b),
    ensures
        search_inv(
            g,
            start,
            goal,
            score,
            came,
            open.remove(e),
            settled.insert(e.2 as int),
            e.2 as int,
            left,
        ),
{
    broadcast use vstd::multiset::group_multiset_axioms;

    lemma_least_is_exact(g, start, goal, score, came, open, settled, e);
    let c = e.2 as int;
    let after = open.remove(e);
    let s2 = settled.insert(c);
    if c == start {
        walks::lemma_dist_zero(g, start, start);
    } else {
        assert(score[c] != u32::MAX);
        assert(settled.contains(came[c] as int));
    }
    assert(score[c] < s2.len());
    assert forall|x: Entry| #[trigger] after.count(x) > 0 implies {
        &&& x.2 < g.cells()
        &&& score[x.2 as int] < u32::MAX
        &&& score[x.2 as int] <= x.1
        &&& x.0 == x.1 + g.taxicab(x.2 as int, goal)
        &&& x.1 == score[x.2 as int] ==> after.count(x) == 1 && !s2.contains(x.2 as int)
    } by {
        assert(open.count(x) > 0);
        if x.1 == score[x.2 as int] && x.2 as int == c {
            assert(x == e);
        }
    }
    assert forall|b: int|
        0 <= b < g.cells() && #[trigger] score[b] != u32::MAX && !s2.contains(
            b,
        ) implies after.count(
        ((score[b] + g.taxicab(b, goal)) as u64, score[b] as u64, b as usize),
    ) > 0 by {
        let x = ((score[b] + g.taxicab(b, goal)) as u64, score[b] as u64, b as usize);
        assert(open.count(x) > 0);
        assert(x.2 == b);
    }
    assert forall|a: int, b: int|
        #![trigger s2.contains(a), s2.contains(b)]
        s2.contains(a) && walks::reach(g, start, b) && rank_lt(
            rank(g, start, goal, b),
            rank(g, start, goal, a),
        ) implies s2.contains(b) by {
        if a != c {
            assert(settled.contains(a));
            assert(settled.contains(b) || true);
        }
    }
    assert forall|a: int, b: int|
        s2.contains(a) && #[trigger] g.step(a, b) && !(a == c && left.contains(b)) implies score[b]
        <= score[a] + 1 && (score[b] == score[a] + 1 && b != start ==> rank_le(
        rank(g, start, goal, came[b] as int),
        rank(g, start, goal, a),
    )) by {
        assert(settled.contains(a));
    }
}

/// Looking at one step from the cell just settled.
proof fn lemma_relax(
    g: &TileGrid,
    start: int,
    goal: int,
    score: Seq<u32>,
    came: Seq<usize>,
    open: Multiset<Entry>,
    settled: Set<int>,
    cur: int,
    left: Set<int>,
    nb: int,
)
    requires
        g.wf(),
        g.cells() <= u32::MAX,
        g.free(start),
        g.free(goal),
        search_inv(g, start, goal, score, came, open, settled, cur, left),
        settled.contains(cur),
        forall|b: int| #[trigger]
            settled.contains(b) ==> rank_le(
                rank(g, start, goal, b),
                rank(g, start, goal, cur),
            ),
        g.step(cur, nb),
        left.contains(nb),
    ensures
        score[cur] + 1 < score[nb] ==> search_inv(
            g,
            start,
            goal,
            score.update(nb, (score[cur] + 1) as u32),
            came.update(nb, cur as usize),
            open.insert(
                (
                    (score[cur] + 1 + g.taxicab(nb, goal)) as u64,
                    (score[cur] + 1) as u64,
                    nb as usize,
                ),
            ),
            settled,
            cur,
            left.remove(nb),
        ) && !settled.contains(nb),
        !(score[cur] + 1 < score[nb]) ==> search_inv(
            g,
            start,
            goal,
            score,
            came,
            open,
            settled,
            cur,
            left.remove(nb),
        ),
{
    broadcast use vstd::multiset::group_multiset_axioms;

    let l2 = left.remove(nb);
    walks::lemma_reach_dist(g, start, cur);
    walks::lemma_step_dist(g, start, cur, nb);
    if score[cur] + 1 < score[nb] {
        assert(!settled.contains(nb));
        let t = (score[cur] + 1) as u32;
        let s2 = score.update(nb, t);
        let c2 = came.update(nb, cur as usize);
        lemma_taxicab_small(g, nb, goal);
        let e = ((t + g.taxicab(nb, goal)) as u64, t as u64, nb as usize);
        let o2 = open.insert(e);
        assert(walks::walk(g, start, nb, t as nat)) by {
            reveal_with_fuel(walks::walk, 2);
            assert(g.step(cur, nb) && walks::walk(g, start, cur, ((score[cur] + 1) - 1) as nat));
        }
        assert(nb != start);
        assert(open.count(e) == 0) by {
            if open.count(e) > 0 {
                assert(score[nb] <= e.1);
            }
        }
        assert forall|x: Entry| #[trigger] o2.count(x) > 0 implies {
            &&& x.2 < g.cells()
            &&& s2[x.2 as int] < u32::MAX
            &&& s2[x.2 as int] <= x.1
            &&& x.0 == x.1 + g.taxicab(x.2 as int, goal)
            &&& x.1 == s2[x.2 as int] ==> o2.count(x) == 1 && !settled.contains(x.2 as int)
        } by {
            if x != e {
                assert(open.count(x) > 0);
                if x.2 == nb {
                    assert(score[nb] <= x.1);
                }
            }
        }
        assert forall|c: int|
            0 <= c < g.cells() && #[trigger] s2[c] != u32::MAX && !settled.contains(
                c,
            ) implies o2.count(
            ((s2[c] + g.taxicab(c, goal)) as u64, s2[c] as u64, c as usize),
        ) > 0 by {
            if c != nb {
                assert(score[c] != u32::MAX);
            }
        }
        assert forall|a: int, b: int|
            settled.contains(a) && #[trigger] g.step(a, b) && !(a == cur && l2.contains(
                b,
            )) implies s2[b] <= s2[a] + 1 && (s2[b] == s2[a] + 1 && b != start ==> rank_le(
            rank(g, start, goal, c2[b] as int),
            rank(g, start, goal, a),
        )) by {
            assert(a != nb);
            if b == nb {
                if a != cur {
                    assert(score[nb] <= score[a] + 1);
                }
            } else {
                assert(!(a == cur && left.contains(b)));
            }
        }
        assert forall|c: int|
            0 <= c < g.cells() && s2[c] != u32::MAX && c
                != start implies settled.contains(#[trigger] c2[c] as int) && g.step(c2[c] as int, c)
            && s2[c] == s2[c2[c] as int] + 1 by {
            if c != nb {
                assert(score[c] != u32::MAX);
                assert(settled.contains(came[c] as int));
            }
        }
    } else {
        assert forall|a: int, b: int|
            settled.contains(a) && #[trigger] g.step(a, b) && !(a == cur && l2.contains(
                b,
            )) implies score[b] <= score[a] + 1 && (score[b] == score[a] + 1 && b != start
            ==> rank_le(rank(g, start, goal, came[b] as int), rank(g, start, goal, a))) by {
            if a == cur && b == nb {
                if score[b] == score[a] + 1 && b != start {
                    lemma_settled_small(
                        g,
                        start,
                        goal,
                        score,
                        came,
                        open,
                        settled,
                        cur,
                        left,
                    );
                    if score[b] == u32::MAX {
                        lemma_all_settled(g.cells(), settled, b);
                        assert(score[b] < settled.len());
                    }
                    assert(settled.contains(came[b] as int));
                }
            } else {
                assert(!(a == cur && left.contains(b)));
            }
        }
    }
}

/// A cell with its exact distance was entered from the right neighbour.
proof fn lemma_entered(
    g: &TileGrid,
    start: int,
    goal: int,
    score: Seq<u32>,
    came: Seq<usize>,
    open: Multiset<Entry>,
    settled: Set<int>,
    c: int,
)
    requires
        g.wf(),
        search_inv(g, start, goal, score, came, open, settled, -1, Set::empty()),
        0 <= c < g.cells(),
        c != start,
        score[c] != u32::MAX,
        walks::reach(g, start, c),
        score[c] == walks::dist(g, start, c),
        forall|b: int| #[trigger]
            walks::reach(g, start, b) && rank_lt(
                rank(g, start, goal, b),
                rank(g, start, goal, c),
            ) ==> settled.contains(b),
    ensures
        enters_from(g, start, goal, came[c] as int, c),
        settled.contains(came[c] as int),
{
    let p = came[c] as int;
    assert(settled.contains(p));
    assert forall|q: int| #[trigger]
        g.step(q, c) && walks::reach(g, start, q) && walks::dist(g, start, q) + 1 == walks::dist(
            g,
            start,
            c,
        ) implies {
        ||| g.taxicab(p, goal) < g.taxicab(q, goal)
        ||| g.taxicab(p, goal) == g.taxicab(q, goal) && p <= q
    } by {
        walks::lemma_taxicab_step(g, q, c, goal);
        assert(rank_lt(rank(g, start, goal, q), rank(g, start, goal, c)));
        assert(settled.contains(q));
        assert(rank_le(rank(g, start, goal, p), rank(g, start, goal, q)));
    }
}

/// Follow the entered-from links back from `goal` and turn the cells round.
fn reconstruct(came_from: &Vec<usize>, start: usize, goal: usize, Ghost(grid): Ghost<TileGrid>) -> (
path: Vec<usize>)
    requires
        came_from@.len() == grid.cells(),
        walks::reach(&grid, start as int, goal as int),
        goal < grid.cells(),
        grid.free(start as int),
        grid.wf(),
        forall|c: int| #[trigger]
            walks::reach(&grid, start as int, c) && c != start && rank_le(
                rank(&grid, start as int, goal as int, c),
                rank(&grid, start as int, goal as int, goal as int),
            ) ==> enters_from(&grid, start as int, goal as int, came_from@[c] as int, c),
    ensures
        is_path(&grid, start as int, goal as int, path@),
{
    let ghost s = start as int;
    let ghost t = goal as int;
    let mut back: Vec<usize> = Vec::new();
    back.push(goal);
    let mut cur: usize = goal;
    proof {
        walks::lemma_dist_zero(&grid, s, t);
    }
    while cur != start
        invariant
            s == start,
            t == goal,
            came_from@.len() == grid.cells(),
            grid.wf(),
            grid.free(s),
            back@.len() > 0,
            back@[0] == goal,
            back@.last() == cur,
            cur < grid.cells(),
            walks::reach(&grid, s, cur as int),
            rank_le(rank(&grid, s, t, cur as int), rank(&grid, s, t, t)),
            back@.len() + walks::dist(&grid, s, cur as int) == walks::dist(&grid, s, t) + 1,
            forall|i: int|
                0 < i < back@.len() ==> enters_from(
                    &grid,
                    s,
                    t,
                    (#[trigger] back@[i]) as int,
                    back@[i - 1] as int,
                ),
            forall|c: int| #[trigger]
                walks::reach(&grid, s, c) && c != start && rank_le(
                    rank(&grid, s, t, c),
                    rank(&grid, s, t, t),
                ) ==> enters_from(&grid, s, t, came_from@[c] as int, c),
        decreases walks::dist(&grid, s, cur as int),
    {
        let p: usize = came_from[cur];
        proof {
            assert(enters_from(&grid, s, t, p as int, cur as int));
            walks::lemma_taxicab_step(&grid, p as int, cur as int, t);
        }
        cur = p;
        back.push(cur);
    }
    proof {
        walks::lemma_dist_zero(&grid, s, s);
    }
    let n: usize = back.len();
    let mut path: Vec<usize> = Vec::new();
    let mut i: usize = 0;
    while i < n
        invariant
            n == back@.len(),
            i <= n,
            path@.len() == i,
            forall|j: int| 0 <= j < i ==> #[trigger] path@[j] == back@[n - 1 - j],
        decreases n - i,
    {
        path.push(back[n - 1 - i]);
        i = i + 1;
    }
    assert forall|i: int| 0 < i < path@.len() implies enters_from(
        &grid,
        s,
        t,
        path@[i - 1] as int,
        (#[trigger] path@[i]) as int,
    ) by {
        assert(path@[i - 1] == back@[n - i]);
        assert(path@[i] == back@[n - i - 1]);
        assert(enters_from(&grid, s, t, back@[n - i] as int, back@[n - i - 1] as int));
    }
    path
}

/// Shortest 4-connected path of cells from `start` to `goal` over walkable
/// cells, both ends in it, or `None` exactly when the goal cannot be reached.
pub fn astar(grid: &TileGrid, start: usize, goal: usize) -> (r: Option<Vec<usize>>)
    requires
        grid.wf(),
        grid.cells() <= u32::MAX,
    ensures
        r is Some <==> walks::reach(grid, start as int, goal as int),
        r matches Some(path) ==> is_path(grid, start as int, goal as int, path@),
{
    astar_counted(grid, start, goal).0
}

/// As [`astar`], with the number of cells expanded: those that rank up to the
/// goal, or all that can be reached if the goal cannot.
pub fn astar_counted(grid: &TileGrid, start: usize, goal: usize) -> (r: (
    Option<Vec<usize>>,
    usize,
))
    requires
        grid.wf(),
        grid.cells() <= u32::MAX,
    ensures
        r.0 is Some <==> walks::reach(grid, start as int, goal as int),
        r.0 matches Some(path) ==> is_path(grid, start as int, goal as int, path@) && r.1
            == ranked_to_goal(grid, start as int, goal as int).len(),
        r.0 is None ==> r.1 == if grid.free(start as int) && grid.free(goal as int) {
            region(grid, start as int).len()
        } else {
            0
        },
{
    let n: usize = grid.len();
    let ghost s = start as int;
    let ghost t = goal as int;
    if start >= n || goal >= n || !grid.is_walkable(start) || !grid.is_walkable(goal) {
        proof {
            if walks::reach(grid, s, t) {
                walks::lemma_start_free(grid, s, t);
            }
        }
        return (None, 0);
    }
    let mut g_score: Vec<u32> = Vec::new();
    let mut came_from: Vec<usize> = Vec::new();
    let mut i: usize = 0;
    while i < n
        invariant
            i <= n,
            g_score@.len() == i,
            came_from@.len() == i,
            forall|c: int| 0 <= c < i ==> #[trigger] g_score@[c] == u32::MAX,
        decreases n - i,
    {
        g_score.push(u32::MAX);
        came_from.push(usize::MAX);
        i = i + 1;
    }
    let mut open = OpenSet::new();
    let mut neighbors: Vec<usize> = Vec::new();
    let mut expanded: usize = 0;
    let ghost mut settled: Set<int> = Set::empty();
    g_score.set(start, 0);
    let h0: u64 = grid.manhattan(start, goal);
    open.push((h0, 0, start));
    proof {
        broadcast use vstd::multiset::group_multiset_axioms;

        walks::lemma_dist_zero(grid, s, s);
        assert forall|e: Entry| #[trigger] open@.count(e) > 0 implies e == (h0, 0u64, start)
            && open@.count(e) == 1 by {}
    }
    loop
        invariant
            grid.wf(),
            grid.cells() <= u32::MAX,
            n == grid.cells(),
            s == start,
            t == goal,
            start < n,
            goal < n,
            grid.free(s),
            grid.free(t),
            open.wf(),
            settled.len() == expanded,
            !settled.contains(t),
            search_inv(
                grid,
                s,
                t,
                g_score@,
                came_from@,
                open@,
                settled,
                -1,
                Set::empty(),
            ),
        decreases n - settled.len(), open@.len(),
    {
        let popped = open.pop();
        let ghost before = if popped is Some {
            open@.insert(popped.unwrap())
        } else {
            open@
        };
        match popped {
            None => {
                proof {
                    lemma_exhausted(
                        grid,
                        s,
                        t,
                        g_score@,
                        came_from@,
                        open@,
                        settled,
                    );
                }
                return (None, expanded);
            },
            Some(e) => {
                let (_f, g, cell) = e;
                proof {
                    broadcast use vstd::multiset::group_multiset_axioms;

                    assert(open@ =~= before.remove(e));
                    assert(before.count(e) > 0);
                    lemma_settled_small(
                        grid,
                        s,
                        t,
                        g_score@,
                        came_from@,
                        before,
                        settled,
                        -1,
                        Set::empty(),
                    );
                }
                if g > g_score[cell] as u64 {
                    proof {
                        lemma_drop_stale(
                            grid,
                            s,
                            t,
                            g_score@,
                            came_from@,
                            before,
                            settled,
                            e,
                        );
                    }
                    continue ;
                }
                proof {
                    lemma_least_is_exact(grid, s, t, g_score@, came_from@, before, settled, e);
                    lemma_room(grid.cells(), settled, cell as int);
                }
                expanded = expanded + 1;
                if cell == goal {
                    proof {
                        assert forall|c: int| #[trigger]
                            walks::reach(grid, s, c) && c != start && rank_le(
                                rank(grid, s, t, c),
                                rank(grid, s, t, t),
                            ) implies enters_from(grid, s, t, came_from@[c] as int, c) by {
                            assert(c == t || settled.contains(c));
                            assert forall|b: int| #[trigger]
                                walks::reach(grid, s, b) && rank_lt(
                                    rank(grid, s, t, b),
                                    rank(grid, s, t, c),
                                ) implies settled.contains(b) by {
                                assert(rank_lt(rank(grid, s, t, b), rank(grid, s, t, t)));
                            }
                            lemma_entered(grid, s, t, g_score@, came_from@, before, settled, c);
                        }
                        assert(settled.insert(t) =~= ranked_to_goal(grid, s, t));
                    }
                    return (Some(reconstruct(&came_from, start, goal, Ghost(*grid))), expanded);
                }
                grid.walkable_neighbors(cell, &mut neighbors);
                proof {
                    let left = rest(neighbors@, 0);
                    walks::lemma_reach_dist(grid, s, cell as int);
                    assert forall|i: int| 0 <= i < neighbors@.len() implies grid.step(
                        cell as int,
                        (#[trigger] neighbors@[i]) as int,
                    ) by {
                        let c = neighbors@[i] as int;
                        assert(grid.free(c) && grid.adjacent(cell as int, c));
                    }
                    assert forall|b: int| #[trigger] grid.step(cell as int, b) implies left.contains(
                        b,
                    ) by {
                        assert(grid.free(b));
                    }
                    lemma_settle(grid, s, t, g_score@, came_from@, before, settled, e, left);
                    settled = settled.insert(cell as int);
                }
                let mut j: usize = 0;
                while j < neighbors.len()
                    invariant
                        grid.wf(),
                        grid.cells() <= u32::MAX,
                        n == grid.cells(),
                        s == start,
                        t == goal,
                        start < n,
                        goal < n,
                        cell < n,
                        grid.free(s),
                        grid.free(t),
                        open.wf(),
                        j <= neighbors@.len(),
                        settled.contains(cell as int),
                        forall|b: int| #[trigger]
                            settled.contains(b) ==> rank_le(
                                rank(grid, s, t, b),
                                rank(grid, s, t, cell as int),
                            ),
                        g_score@[cell as int] == g,
                        forall|i: int, k: int|
                            0 <= i < k < neighbors@.len() ==> #[trigger] neighbors@[i]
                                < #[trigger] neighbors@[k],
                        forall|i: int|
                            0 <= i < neighbors@.len() ==> grid.step(
                                cell as int,
                                (#[trigger] neighbors@[i]) as int,
                            ),
                        search_inv(
                            grid,
                            s,
                            t,
                            g_score@,
                            came_from@,
                            open@,
                            settled,
                            cell as int,
                            rest(neighbors@, j as int),
                        ),
                    decreases neighbors@.len() - j,
                {
                    let nb: usize = neighbors[j];
                    let tentative: u64 = g + 1;
                    proof {
                        let left = rest(neighbors@, j as int);
                        assert(neighbors@[j as int] == nb);
                        assert(left.contains(nb as int));
                        assert(left.remove(nb as int) =~= rest(neighbors@, j + 1)) by {
                            assert forall|b: int| #[trigger]
                                left.remove(nb as int).contains(b) implies rest(
                                neighbors@,
                                j + 1,
                            ).contains(b) by {
                                let i = choose|i: int|
                                    j <= i < neighbors@.len() && #[trigger] neighbors@[i] == b;
                                assert(i != j);
                            }
                            assert forall|b: int| #[trigger]
                                rest(neighbors@, j + 1).contains(b) implies left.remove(
                                nb as int,
                            ).contains(b) by {
                                let i = choose|i: int|
                                    j + 1 <= i < neighbors@.len() && #[trigger] neighbors@[i] == b;
                                assert(neighbors@[j as int] < neighbors@[i]);
                            }
                        }
                        lemma_relax(
                            grid,
                            s,
                            t,
                            g_score@,
                            came_from@,
                            open@,
                            settled,
                            cell as int,
                            left,
                            nb as int,
                        );
                        lemma_taxicab_small(grid, nb as int, t);
                    }
                    if tentative < g_score[nb] as u64 {
                        g_score.set(nb, tentative as u32);
                        came_from.set(nb, cell);
                        let h: u64 = grid.manhattan(nb, goal);
                        open.push((tentative + h, tentative, nb));
                    }
                    j = j + 1;
                }
                proof {
                    assert(rest(neighbors@, j as int) =~= Set::empty());
                    lemma_nothing_left(
                        grid,
                        s,
                        t,
                        g_score@,
                        came_from@,
                        open@,
                        settled,
                        cell as int,
                    );
                    lemma_settled_small(
                        grid,
                        s,
                        t,
                        g_score@,
                        came_from@,
                        open@,
                        settled,
                        -1,
                        Set::empty(),
                    );
                }
            },
        }
    }
}

proof fn lemma_nothing_left(
    g: &TileGrid,
    start: int,
    goal: int,
    score: Seq<u32>,
    came: Seq<usize>,
    open: Multiset<Entry>,
    settled: Set<int>,
    cur: int,
)
    requires
        search_inv(g, start, goal, score, came, open, settled, cur, Set::empty()),
    ensures
        search_inv(g, start, goal, score, came, open, settled, -1, Set::empty()),
{
}

/// A set that misses a cell holds fewer than all.
proof fn lemma_room(n: int, s: Set<int>, c: int)
    requires
        s.finite(),
        forall|b: int| #[trigger] s.contains(b) ==> 0 <= b < n,
        0 <= c < n,
        !s.contains(c),
    ensures
        s.len() < n,
{
    lemma_len_below(n, s.insert(c));
}

/// With no candidate left, the settled cells are the ones that can be reached.
proof fn lemma_exhausted(
    g: &TileGrid,
    start: int,
    goal: int,
    score: Seq<u32>,
    came: Seq<usize>,
    open: Multiset<Entry>,
    settled: Set<int>,
)
    requires
        g.wf(),
        g.cells() <= u32::MAX,
        g.free(start),
        g.free(goal),
        search_inv(g, start, goal, score, came, open, settled, -1, Set::empty()),
        open.len() == 0,
    ensures
        settled == region(g, start),
{
    broadcast use vstd::multiset::group_multiset_axioms;

    assert forall|c: int| settled.contains(c) <==> region(g, start).contains(c) by {
        if walks::reach(g, start, c) && !settled.contains(c) {
            let e = lemma_frontier(g, start, goal, score, came, open, settled, c);
            assert(open.count(e) > 0);
            assert(open.remove(e).len() == open.len() - 1);
        }
    }
    assert(settled =~= region(g, start));
}

/// The path is a function of the map and its ends: no two paths satisfy
/// [`is_path`].
pub proof fn path_is_unique(g: &TileGrid, start: int, goal: int, p: Seq<usize>, q: Seq<usize>)
    requires
        is_path(g, start, goal, p),
        is_path(g, start, goal, q),
    ensures
        p == q,
{
    assert forall|i: int| 0 <= i < p.len() implies p[i] == q[i] by {
        lemma_same_suffix(g, start, goal, p, q, i);
    }
    assert(p =~= q);
}

proof fn lemma_same_suffix(
    g: &TileGrid,
    start: int,
    goal: int,
    p: Seq<usize>,
    q: Seq<usize>,
    i: int,
)
    requires
        is_path(g, start, goal, p),
        is_path(g, start, goal, q),
        0 <= i < p.len(),
    ensures
        p[i] == q[i],
    decreases p.len() - i,
{
    if i + 1 < p.len() {
        lemma_same_suffix(g, start, goal, p, q, i + 1);
        let c = p[i + 1] as int;
        assert(enters_from(g, start, goal, p[i + 1 - 1] as int, p[i + 1] as int));
        assert(enters_from(g, start, goal, q[i + 1 - 1] as int, q[i + 1] as int));
        assert(g.step(p[i] as int, c) && g.step(q[i] as int, c));
    }
}

/// Every step of a path is a step between edge-adjacent walkable cells, and no
/// walk between its ends is shorter.
pub proof fn path_is_walkable_and_shortest(
    g: &TileGrid,
    start: int,
    goal: int,
    path: Seq<usize>,
    k: nat,
)
    requires
        is_path(g, start, goal, path),
    ensures
        forall|i: int|
            0 < i < path.len() ==> g.step(path[i - 1] as int, (#[trigger] path[i]) as int),
        walks::walk(g, start, goal, k) ==> path.len() <= k + 1,
{
    assert forall|i: int| 0 < i < path.len() implies g.step(
        path[i - 1] as int,
        (#[trigger] path[i]) as int,
    ) by {
        assert(enters_from(g, start, goal, path[i - 1] as int, path[i] as int));
    }
    if walks::walk(g, start, goal, k) {
        walks::lemma_dist(g, start, goal, k);
    }
}

} // verus!
