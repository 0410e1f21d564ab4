//! The simulation core: a deterministic function of its state and commands.

pub mod ai;
pub mod combat;
pub mod command;
pub mod content;
pub mod economy;
pub mod movement;
pub mod near;
pub mod obeying;
pub mod orders;
pub mod pathfind;
pub mod registry;
pub mod replay;
pub mod spatial;
pub mod turns;
pub mod victory;
pub mod world;

pub use ai::{AiAction, AiCommander, AiCommanders, AiJournal};
pub use combat::{AttackCooldown, Casualties, Engaging, Health, Target};
pub use command::apply_commands;
pub use content::Content;
pub use economy::{Building, Carrying, GatherPhase, ProductionQueue, QueuedUnit, Stockpiles, UnitDefIdx};
pub use movement::{step_toward, GatherTarget, MoveTarget, Position};
pub use orders::{
    Attribution, Command, CommandQueue, CommandTick, Order, OrderQueue, SignedOrder, TakenCommand,
};
pub use pathfind::{astar, FlowField, TileGrid};
pub use registry::{SimId, SimIds};
pub use replay::{CommandLog, LoggedCommand, LoggedOrder, MatchLog, TickGate};
pub use spatial::{brute_force_nearest_enemy, random_layout, Faction, SplitMix64, Unit};
pub use victory::{match_running, MatchOutcome, MatchState};
pub use world::{Entity, World};

use vstd::prelude::*;

verus! {

/// The silhouette class of a unit. Its presence marks a thing as a commandable
/// unit; resource nodes carry none.
#[derive(Clone, Copy, PartialEq, Eq, Structural, Debug)]
pub enum UnitKind {
    Worker,
    Soldier,
    Scout,
}

impl UnitKind {
    pub open spec fn name(self) -> Seq<char> {
        match self {
            UnitKind::Worker => "Worker"@,
            UnitKind::Soldier => "Soldier"@,
            UnitKind::Scout => "Scout"@,
        }
    }

    pub fn label(self) -> (r: &'static str)
        ensures
            r@ == self.name(),
    {
        match self {
            UnitKind::Worker => "Worker",
            UnitKind::Soldier => "Soldier",
            UnitKind::Scout => "Scout",
        }
    }
}

} // verus!
