//! Combat: health, damage, engagement and death.

pub mod approach;
pub mod damage;
pub mod laws;
pub mod tick;

pub use approach::approach_waypoint;
pub use damage::{damage_per_hit, Casualties, Health};
pub use tick::{combat, Fighter, Sight, Verdict};

use vstd::prelude::*;

use crate::sim::world::Entity;

verus! {

/// Ticks remaining before a unit may hit again.
#[derive(Clone, Copy, PartialEq, Eq, Structural, Debug)]
pub struct AttackCooldown(pub u32);

/// The enemy a unit is currently engaging.
#[derive(Clone, Copy, PartialEq, Eq, Structural, Debug)]
pub struct Target(pub Entity);

/// Marks a move that combat itself ordered while chasing.
#[derive(Clone, Copy, PartialEq, Eq, Structural, Debug)]
pub struct Engaging;

} // verus!
