//! The opening of a networked match. Both peers lay out both sides from the
//! match seed, so the match depends on its seed from the first tick on.

use vstd::prelude::*;

use crate::float::Point;
use crate::headless;
use crate::headless::{base_of, Orientation, NODE_AMOUNT};
use crate::setup;
use crate::setup::{spawn_building, spawn_unit, Spawn};
use crate::sim::ai;
use crate::sim::content::Content;
use crate::sim::spatial;
use crate::sim::spatial::{random_layout, Faction, GOLDEN};

verus! {

/// How far from its base a worker starts at most, along each axis.
pub const SCATTER: u32 = 60;

/// A thing to put into the world.
#[derive(Clone, Copy, PartialEq, Eq, Structural, Debug)]
pub enum Opened {
    /// Where it says.
    There(Spawn),
    /// In the square that reaches [`SCATTER`] around where it says; `at` is the
    /// place in that square, in fractions of its side.
    Around { thing: Spawn, at: Point },
}

/// Where the seed puts the `i`-th worker of a side.
pub open spec fn spot(f: Faction, seed: u64, i: int) -> Point {
    spatial::layout_unit(ai::stream_start(f, seed), i).pos
}

/// The `i`-th worker of a side.
pub open spec fn worker_at(content: &Content, worker: int, f: Faction, seed: u64, i: int) -> Opened {
    Opened::Around {
        thing: setup::unit_spawn(content, worker, f, headless::base_x(f, Orientation::Normal), 0),
        at: spot(f, seed, i),
    }
}

/// What one side starts with: its headquarters, its deposit, its workers.
pub open spec fn side_opened(content: &Content, hq: int, worker: int, f: Faction, seed: u64) -> Seq<
    Opened,
> {
    let x = headless::base_x(f, Orientation::Normal);
    seq![
        Opened::There(setup::building_spawn(content, hq, f, x, 0)),
        Opened::There(setup::node_spawn(NODE_AMOUNT, x, 250)),
        worker_at(content, worker, f, seed, 0),
        worker_at(content, worker, f, seed, 1),
        worker_at(content, worker, f, seed, 2),
    ]
}

fn layout_seed(f: Faction, seed: u64) -> (r: u64)
    ensures
        r == ai::stream_start(f, seed),
{
    assert(seed ^ 0u64 == seed) by (bit_vector);
    match f {
        Faction::A => seed,
        Faction::B => seed ^ GOLDEN,
    }
}

fn spots(f: Faction, seed: u64) -> (r: [Point; 3])
    ensures
        r@[0] == spot(f, seed, 0),
        r@[1] == spot(f, seed, 1),
        r@[2] == spot(f, seed, 2),
{
    let start: u64 = layout_seed(f, seed);
    let layout = random_layout(3, start);
    let r: [Point; 3] = [layout[0].pos, layout[1].pos, layout[2].pos];
    assert(layout@[0] == spatial::layout_unit(start, 0));
    assert(layout@[1] == spatial::layout_unit(start, 1));
    assert(layout@[2] == spatial::layout_unit(start, 2));
    r
}

fn open_side(
    content: &Content,
    hq: usize,
    worker: usize,
    f: Faction,
    seed: u64,
    all: &mut Vec<Opened>,
)
    requires
        worker < content.units@.len(),
    ensures
        final(all)@ == old(all)@ + side_opened(content, hq as int, worker as int, f, seed),
{
    let x: i32 = base_of(f, Orientation::Normal);
    let at: [Point; 3] = spots(f, seed);
    let thing: Spawn = spawn_unit(content, worker, f, x, 0);
    all.push(Opened::There(spawn_building(content, hq, f, x, 0)));
    all.push(Opened::There(Spawn::Node { amount: NODE_AMOUNT, x, y: 250 }));
    all.push(Opened::Around { thing, at: at[0] });
    all.push(Opened::Around { thing, at: at[1] });
    all.push(Opened::Around { thing, at: at[2] });
    assert(all@ =~= old(all)@ + side_opened(content, hq as int, worker as int, f, seed));
}

/// The world of a networked match, in the order it is spawned. `None` if the
/// content has no `hq` or no `worker`.
pub fn opening(content: &Content, seed: u64) -> (r: Option<Vec<Opened>>)
    ensures
        match (content.building_pos("hq"@), content.unit_pos("worker"@)) {
            (Some(h), Some(w)) => r matches Some(all) && all@ == side_opened(
                content,
                h,
                w,
                Faction::A,
                seed,
            ) + side_opened(content, h, w, Faction::B, seed),
            _ => r is None,
        },
{
    match (content.building_index("hq"), content.unit_index("worker")) {
        (Some(hq), Some(worker)) => {
            let mut all: Vec<Opened> = Vec::new();
            open_side(content, hq, worker, Faction::A, seed, &mut all);
            open_side(content, hq, worker, Faction::B, seed, &mut all);
            assert(all@ =~= side_opened(content, hq as int, worker as int, Faction::A, seed)
                + side_opened(content, hq as int, worker as int, Faction::B, seed));
            Some(all)
        },
        _ => None,
    }
}

/// How many frames a peer may take for one tick, on the whole.
pub const FRAMES_PER_TICK: u64 = 20;

/// Is a match of `ticks` still to be played, after `frames` frames of which
/// `tick` came to run? There is a budget, so that a peer whose partner is gone
/// comes to an end.
pub fn plays_on(tick: u32, ticks: u32, frames: u64) -> (r: bool)
    ensures
        r == (tick < ticks && frames < ticks * FRAMES_PER_TICK),
{
    tick < ticks && frames < ticks as u64 * FRAMES_PER_TICK
}

/// Both peers open the same match whichever side they play: each side has its
/// headquarters and its deposit at its own base, and its workers around the
/// headquarters, where its own draws from the match seed put them. No two draws
/// are used twice.
pub proof fn a_networked_opening_is_drawn(
    content: &Content,
    hq: int,
    worker: int,
    f: Faction,
    seed: u64,
    i: int,
)
    requires
        0 <= hq <= usize::MAX,
        0 <= worker <= usize::MAX,
        0 <= i < 3,
    ensures
        ({
            let all = side_opened(content, hq, worker, f, seed);
            let x = if f == Faction::A {
                -750
            } else {
                750int
            };
            &&& all.len() == 5
            &&& all[0] matches Opened::There(Spawn::Building { def, faction, x: u, y, .. }) && def
                == hq && faction == f && u == x && y == 0
            &&& all[1] matches Opened::There(Spawn::Node { amount, x: u, .. }) && amount
                == NODE_AMOUNT && u == x
            &&& all[2 + i] matches Opened::Around {
                thing: Spawn::Unit { def, faction, x: u, y, .. },
                at,
            } && def == worker && faction == f && u == x && y == 0 && at.x == spatial::unit_f32(
                spatial::draw(ai::stream_start(f, seed), (3 * i) as nat),
            ) && at.y == spatial::unit_f32(
                spatial::draw(ai::stream_start(f, seed), (3 * i + 1) as nat),
            )
        }),
{
}

} // verus!
