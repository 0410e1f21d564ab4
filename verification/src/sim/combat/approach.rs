//! How a unit closes with its target: straight ahead if nothing is in the way,
//! otherwise by the next cell of a shortest path.

use vstd::prelude::*;

use crate::sim::pathfind;
use crate::sim::pathfind::{astar, TileGrid};

verus! {

/// Is every cell that a line crosses walkable?
pub open spec fn clear(grid: &TileGrid, line: Seq<usize>) -> bool {
    forall|i: int| 0 <= i < line.len() ==> grid.free(#[trigger] line[i] as int)
}

/// Whether the straight line that crosses these cells stays on walkable ones.
pub fn segment_is_clear(grid: &TileGrid, line: &Vec<usize>) -> (r: bool)
    ensures
        r == clear(grid, line@),
{
    let mut k: usize = 0;
    while k < line.len()
        invariant
            k <= line@.len(),
            forall|i: int| 0 <= i < k ==> grid.free(#[trigger] line@[i] as int),
        decreases line@.len() - k,
    {
        if !grid.is_walkable(line[k]) {
            assert(!grid.free(line@[k as int] as int));
            return false;
        }
        k = k + 1;
    }
    true
}

/// The cell to head for on the way from `start` to `goal`, or `None` to head
/// straight for the goal: nothing is in the way, there is no way, or the goal is
/// in this very cell. `line` is what the straight line crosses.
pub fn approach_waypoint(grid: &TileGrid, line: &Vec<usize>, start: usize, goal: usize) -> (r:
    Option<usize>)
    requires
        grid.wf(),
        grid.cells() <= u32::MAX,
    ensures
        r is None <==> clear(grid, line@) || !pathfind::walks::reach(
            grid,
            start as int,
            goal as int,
        ) || start == goal,
        r matches Some(c) ==> exists|path: Seq<usize>|
            #[trigger] pathfind::astar::is_path(grid, start as int, goal as int, path)
                && path.len() >= 2 && path[1] == c,
{
    if segment_is_clear(grid, line) {
        return None;
    }
    match astar(grid, start, goal) {
        Some(path) => {
            proof {
                if start == goal {
                    pathfind::walks::lemma_start_free(grid, start as int, goal as int);
                    reveal(pathfind::walks::walk);
                    pathfind::astar::path_is_walkable_and_shortest(
                        grid,
                        start as int,
                        goal as int,
                        path@,
                        0,
                    );
                }
            }
            if path.len() >= 2 {
                Some(path[1])
            } else {
                None
            }
        },
        None => None,
    }
}

} // verus!
