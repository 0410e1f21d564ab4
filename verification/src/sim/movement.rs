//! Arriving: the one decision that movement takes.

use vstd::prelude::*;

use crate::float::{F32, Point};
use crate::sim::world::Entity;

verus! {

/// Bits of 1.0: how near to its target a moving unit snaps to it and stops.
pub const STOP_EPS_BITS: u32 = 0x3f80_0000;

/// Where a thing is.
#[derive(Clone, Copy, PartialEq, Eq, Structural, Debug)]
pub struct Position(pub Point);

/// Where a unit is ordered to move. Removed on arrival.
#[derive(Clone, Copy, PartialEq, Eq, Structural, Debug)]
pub struct MoveTarget(pub Point);

/// The deposit a unit is assigned to gather from: one half of the economy's
/// claim on it, its phase being the other.
#[derive(Clone, Copy, PartialEq, Eq, Structural, Debug)]
pub struct GatherTarget(pub Entity);

/// How far one step reaches: its length, or the stopping distance if that is
/// more. A step that is not a number counts for nothing.
pub open spec fn stride(step: F32) -> F32 {
    if F32::one().less(step) {
        step
    } else {
        F32::one()
    }
}

/// Is the target within one step?
pub open spec fn arrives(distance: F32, step: F32) -> bool {
    distance.at_most(stride(step))
}

/// Advance toward `target` by at most `step`: the new position, and whether the
/// unit has arrived. `ahead` is the point one step along the way.
pub fn step_toward(target: Point, distance: F32, step: F32, ahead: Point) -> (r: (Point, bool))
    ensures
        r.1 == arrives(distance, step),
        r.0 == if r.1 {
            target
        } else {
            ahead
        },
{
    let stop: F32 = F32 { bits: STOP_EPS_BITS };
    let reach: F32 = if stop.lt(&step) {
        step
    } else {
        stop
    };
    if distance.le(&reach) {
        (target, true)
    } else {
        (ahead, false)
    }
}

/// A unit never oversteps: one that has not arrived is further away than its
/// step, where both are numbers.
pub proof fn no_step_is_too_long(distance: F32, step: F32)
    requires
        !distance.nan(),
        !step.nan(),
        !arrives(distance, step),
    ensures
        step.less(distance),
{
}

/// A unit arrives exactly if its target is within its step or within the
/// stopping distance.
pub proof fn a_unit_arrives_within_its_step(distance: F32, step: F32)
    requires
        !distance.nan(),
        !step.nan(),
    ensures
        arrives(distance, step) <==> distance.at_most(step) || distance.at_most(
            F32 { bits: STOP_EPS_BITS },
        ),
{
}

} // verus!
