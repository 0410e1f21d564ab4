//! Content as data: unit, building and resource definitions, and the scripts
//! of the computer commanders.
//!
//! Definitions keep their order and every lookup is a linear scan over it:
//! the first match wins.

pub mod changes;
pub mod fingerprint;
pub mod laws;
pub mod lookup;
pub mod nemesis;
pub mod playable;
pub mod script;
pub mod validate;

pub use fingerprint::ContentFingerprint;
pub use nemesis::NemesisBonus;
pub use script::{AiDef, ArmyItem, Opening, StrategyDef};
pub use validate::ContentError;

use vstd::prelude::*;

use crate::float::F32;
use crate::sim::UnitKind;

verus! {

/// Where the shipped data files live, relative to the working directory.
pub const DATA_DIR: &'static str = "assets/data";

/// A price tag in one of the three resources. Not charged yet: the sim charges
/// [`UnitDef::mvp_alloy_cost`].
#[derive(Debug, Clone)]
pub struct Cost {
    pub resource: String,
    pub amount: u32,
}

/// One unit of the roster (a worker or a combat unit).
#[derive(Debug, Clone)]
pub struct UnitDef {
    pub id: String,
    pub name: String,
    /// Producing building for workers.
    pub source: Option<String>,
    /// Producing building for combat units.
    pub barracks: Option<String>,
    pub cost: Cost,
    pub mvp_kind: UnitKind,
    /// Alloy charged once when this unit's production is ordered.
    pub mvp_alloy_cost: u32,
    /// Ticks to finish the unit.
    pub mvp_train_ticks: u32,
    /// Alloy carried per trip (gatherers only).
    pub mvp_carry_capacity: u32,
    /// Ticks spent harvesting one load at a deposit (gatherers only).
    pub mvp_gather_ticks: u32,
    /// Ticks between two hits. 0 marks a non-combatant.
    pub mvp_attack_ticks: u32,
    /// Radius within which this unit can hit. 0 marks a non-combatant.
    pub mvp_attack_range: F32,
    pub speed: u32,
    pub offense: u32,
    pub defense: u32,
    pub armor: u32,
    /// The single prey this unit gets the nemesis bonus against.
    pub nemesis: Option<String>,
    pub gathers: bool,
    pub builds: bool,
}

/// A placeable or starting building and what it can train.
#[derive(Debug, Clone)]
pub struct BuildingDef {
    pub id: String,
    pub name: String,
    /// Alloy charged once when the building is placed.
    pub alloy_cost: u32,
    /// Ids of the units this building can produce.
    pub produces: Vec<String>,
    /// Workers may deposit their load here.
    pub dropoff: bool,
    /// Losing this building loses the match.
    pub victory: bool,
    /// Design-scale defense: the building's pool of hit points.
    pub mvp_defense: u32,
    /// Design-scale armor: flat mitigation per hit.
    pub mvp_armor: u32,
}

/// How the design stats become sim numbers.
#[derive(Debug, Clone, Copy)]
pub struct CombatDef {
    /// Hit points per point of defense.
    pub hp_per_defense: u32,
    /// Damage per hit per point of offense.
    pub damage_per_offense: u32,
    /// Flat mitigation per hit per point of armor.
    pub mitigation_per_armor: u32,
    /// World units per second per point of speed.
    pub speed_per_point: F32,
    /// Radius within which an idle unit picks a fight.
    pub engage_range: F32,
    /// Upper bound of the design scale.
    pub max_stat: u32,
    /// Hit points per point of a building's defense.
    pub building_hp_per_defense: u32,
    /// How far a unit already chasing will follow before giving up.
    pub pursue_range: F32,
}

/// How a resource enters the economy.
#[derive(Debug, Clone, Copy, PartialEq, Eq, Structural)]
pub enum Acquisition {
    Mined,
    Grown,
    Channeled,
}

/// One resource of the three-domain economy.
#[derive(Debug, Clone)]
pub struct ResourceDef {
    pub id: String,
    pub name: String,
    pub domain: String,
    pub building: String,
    pub acquisition: Acquisition,
    pub powers: Vec<String>,
}

/// The single currency and the interaction radii.
#[derive(Debug, Clone)]
pub struct EconomyDef {
    pub currency: String,
    /// Alloy each faction starts the match with.
    pub starting_alloy: u32,
    pub gather_range: F32,
    pub deposit_range: F32,
}

/// All game content.
#[derive(Debug, Clone)]
pub struct Content {
    /// Workers first, then combat units, in file order.
    pub units: Vec<UnitDef>,
    pub buildings: Vec<BuildingDef>,
    /// Stat scaling for combat.
    pub combat: CombatDef,
    pub nemesis_bonus: NemesisBonus,
    /// The opening script.
    pub ai: AiDef,
    /// The named scripts a commander can run, in file order.
    pub strategies: Vec<StrategyDef>,
    /// The script a commander runs if none is named. Empty in content that
    /// holds no scripts.
    pub default_strategy: String,
    pub resources: Vec<ResourceDef>,
    pub mvp_active: Vec<String>,
    pub economy: EconomyDef,
}

} // verus!
