//! What the rules of the simulation read of the world: names of entities, and
//! one row per living thing.

use vstd::prelude::*;

use crate::sim::spatial::Faction;

verus! {

/// The name of a thing in the world.
#[derive(Clone, Copy, PartialEq, Eq, Structural, Debug, Hash)]
pub struct Entity {
    pub bits: u64,
}

/// Can these bits name an entity?
pub open spec fn names_entity(bits: u64) -> bool {
    bits as int % 0x1_0000_0000 != 0
}

/// Reads entity bits through `bevy::ecs::entity::Entity::try_from_bits` and
/// gives back what `Entity::to_bits` makes of the result. Claimed of them: bits
/// are refused exactly when the low half, the index, is zero, and an entity
/// that was read keeps its bits.
#[verifier::external_body]
fn checked_bits(bits: u64) -> (r: Option<u64>)
    ensures
        r == if names_entity(bits) {
            Some(bits)
        } else {
            None
        },
{
    bevy::ecs::entity::Entity::try_from_bits(bits).map(|e| e.to_bits())
}

impl Entity {
    /// Bits that a world can hold.
    pub open spec fn valid(self) -> bool {
        names_entity(self.bits)
    }

    pub fn to_bits(self) -> (r: u64)
        ensures
            r == self.bits,
    {
        self.bits
    }

    /// The entity of these bits, if they name one.
    pub fn try_from_bits(bits: u64) -> (r: Option<Entity>)
        ensures
            r == if names_entity(bits) {
                Some(Entity { bits })
            } else {
                None
            },
    {
        match checked_bits(bits) {
            Some(b) => Some(Entity { bits: b }),
            None => None,
        }
    }
}

/// What the command rules read of one living thing.
#[derive(Clone, Copy, Debug)]
pub struct Row {
    pub entity: Entity,
    /// Whose it is. A resource node is nobody's.
    pub owner: Option<Faction>,
    /// Its unit definition, for a unit.
    pub unit_def: Option<usize>,
    /// Its building definition, for a building with a production queue.
    pub producer_def: Option<usize>,
}

/// Everything alive at the start of the tick.
#[derive(Clone, Debug)]
pub struct World {
    pub rows: Vec<Row>,
}

/// The row of `e`, from row `k` on.
pub open spec fn row_from(rows: Seq<Row>, e: Entity, k: int) -> Option<Row>
    decreases rows.len() - k,
{
    if k < 0 || k >= rows.len() {
        None
    } else if rows[k].entity == e {
        Some(rows[k])
    } else {
        row_from(rows, e, k + 1)
    }
}

impl World {
    /// The row of a living thing.
    pub open spec fn row(&self, e: Entity) -> Option<Row> {
        row_from(self.rows@, e, 0)
    }

    pub open spec fn alive(&self, e: Entity) -> bool {
        self.row(e) is Some
    }

    /// Whose `e` is.
    pub open spec fn owner(&self, e: Entity) -> Option<Faction> {
        match self.row(e) {
            Some(row) => row.owner,
            None => None,
        }
    }

    /// Which unit definition `e` has.
    pub open spec fn unit_def(&self, e: Entity) -> Option<usize> {
        match self.row(e) {
            Some(row) => row.unit_def,
            None => None,
        }
    }

    /// The definition and the owner of `e`, if it is a producer.
    pub open spec fn producer(&self, e: Entity) -> Option<(usize, Faction)> {
        match self.row(e) {
            Some(row) => match (row.producer_def, row.owner) {
                (Some(def), Some(f)) => Some((def, f)),
                _ => None,
            },
            None => None,
        }
    }

    /// The row of `e`, if it is alive.
    pub fn find(&self, e: Entity) -> (r: Option<Row>)
        ensures
            r == self.row(e),
    {
        let mut k: usize = 0;
        while k < self.rows.len()
            invariant
                k <= self.rows@.len(),
                self.row(e) == row_from(self.rows@, e, k as int),
            decreases self.rows@.len() - k,
        {
            if self.rows[k].entity == e {
                return Some(self.rows[k]);
            }
            k = k + 1;
        }
        None
    }

    /// Whose `e` is.
    pub fn owner_of(&self, e: Entity) -> (r: Option<Faction>)
        ensures
            r == self.owner(e),
    {
        match self.find(e) {
            Some(row) => row.owner,
            None => None,
        }
    }

    /// The definition and the owner of `e`, if it is a producer.
    pub fn producer_of(&self, e: Entity) -> (r: Option<(usize, Faction)>)
        ensures
            r == self.producer(e),
    {
        match self.find(e) {
            Some(row) => match (row.producer_def, row.owner) {
                (Some(def), Some(f)) => Some((def, f)),
                _ => None,
            },
            None => None,
        }
    }
}

// ---- laws -------------------------------------------------------------------

/// A thing is alive exactly if a row goes by its name, and what is known of it is
/// what the first such row says: whose it is, what unit it is, and, if it is
/// somebody's, what it produces as.
pub proof fn a_thing_is_what_its_row_says(world: &World, e: Entity, k: int)
    requires
        0 <= k < world.rows@.len(),
        world.rows@[k].entity == e,
        forall|i: int| 0 <= i < k ==> (#[trigger] world.rows@[i]).entity != e,
    ensures
        world.alive(e),
        world.row(e) == Some(world.rows@[k]),
        world.owner(e) == world.rows@[k].owner,
        world.unit_def(e) == world.rows@[k].unit_def,
        world.producer(e) is Some <==> world.rows@[k].producer_def is Some
            && world.rows@[k].owner is Some,
        world.producer(e) matches Some((def, f)) ==> world.rows@[k].producer_def == Some(def)
            && world.rows@[k].owner == Some(f),
{
    lemma_row(world.rows@, e, 0, k);
}

proof fn lemma_row(rows: Seq<Row>, e: Entity, from: int, k: int)
    requires
        0 <= from <= k < rows.len(),
        rows[k].entity == e,
        forall|i: int| 0 <= i < k ==> (#[trigger] rows[i]).entity != e,
    ensures
        row_from(rows, e, from) == Some(rows[k]),
    decreases k - from,
{
    if from < k {
        assert(rows[from].entity != e);
        lemma_row(rows, e, from + 1, k);
    }
}

/// Nothing is known of a thing without a row: it is not alive, and nobody's.
pub proof fn the_dead_are_nobodys(world: &World, e: Entity)
    requires
        forall|i: int| 0 <= i < world.rows@.len() ==> (#[trigger] world.rows@[i]).entity != e,
    ensures
        !world.alive(e),
        world.owner(e) is None,
        world.unit_def(e) is None,
        world.producer(e) is None,
{
    lemma_no_row(world.rows@, e, 0);
}

proof fn lemma_no_row(rows: Seq<Row>, e: Entity, from: int)
    requires
        0 <= from <= rows.len(),
        forall|i: int| 0 <= i < rows.len() ==> (#[trigger] rows[i]).entity != e,
    ensures
        row_from(rows, e, from) is None,
    decreases rows.len() - from,
{
    if from < rows.len() {
        assert(rows[from].entity != e);
        lemma_no_row(rows, e, from + 1);
    }
}

} // verus!
