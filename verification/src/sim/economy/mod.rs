//! The Alloy economy: stockpiles, the worker loop, placing and training.
//!
//! Alloy is only ever moved, never minted: a harvest takes out of a deposit
//! exactly what it puts into a worker's hands, and a deposit moves exactly that
//! into the stockpile.

pub mod gather;
pub mod laws;
pub mod production;

pub use gather::{gather, GatherPhase};
pub use production::{production, ProductionQueue, QueuedUnit};

use vstd::prelude::*;

use crate::sim::content::lookup;
use crate::sim::content::Content;
use crate::sim::spatial::Faction;
use crate::text;

verus! {

/// Banked Alloy per faction.
#[derive(Clone, Copy, PartialEq, Eq, Structural, Debug)]
pub struct Stockpiles {
    pub a: u32,
    pub b: u32,
}

impl Default for Stockpiles {
    fn default() -> (r: Self)
        ensures
            r == (Stockpiles { a: 0, b: 0 }),
    {
        Stockpiles { a: 0, b: 0 }
    }
}

impl Stockpiles {
    /// What `f` has banked.
    pub open spec fn of(self, f: Faction) -> u32 {
        match f {
            Faction::A => self.a,
            Faction::B => self.b,
        }
    }

    /// The stockpiles with `f`'s at `amount`.
    pub open spec fn with(self, f: Faction, amount: u32) -> Stockpiles {
        match f {
            Faction::A => Stockpiles { a: amount, b: self.b },
            Faction::B => Stockpiles { a: self.a, b: amount },
        }
    }

    /// Alloy banked by both sides.
    pub open spec fn total(self) -> nat {
        self.a as nat + self.b as nat
    }

    /// How much of `amount` `f`'s stockpile can take.
    pub open spec fn room(self, f: Faction, amount: u32) -> u32 {
        if amount <= u32::MAX - self.of(f) {
            amount
        } else {
            (u32::MAX - self.of(f)) as u32
        }
    }

    /// The stockpiles after `f` paid `amount`, if it can.
    pub open spec fn charged(self, f: Faction, amount: u32) -> Option<Stockpiles> {
        if self.of(f) >= amount {
            Some(self.with(f, (self.of(f) - amount) as u32))
        } else {
            None
        }
    }

    /// Start both factions at `amount` Alloy.
    pub fn starting(amount: u32) -> (r: Self)
        ensures
            r == (Stockpiles { a: amount, b: amount }),
    {
        Stockpiles { a: amount, b: amount }
    }

    pub fn alloy(&self, f: Faction) -> (r: u32)
        ensures
            r == self.of(f),
    {
        match f {
            Faction::A => self.a,
            Faction::B => self.b,
        }
    }

    fn set(&mut self, f: Faction, amount: u32)
        ensures
            *final(self) == old(self).with(f, amount),
    {
        match f {
            Faction::A => {
                self.a = amount;
            },
            Faction::B => {
                self.b = amount;
            },
        }
    }

    /// Bank as much of `amount` as the counter can hold and return the amount
    /// accepted. Whatever a full stockpile cannot take stays where it was.
    #[must_use]
    pub fn add(&mut self, f: Faction, amount: u32) -> (r: u32)
        ensures
            r == old(self).room(f, amount),
            *final(self) == old(self).with(f, (old(self).of(f) + r) as u32),
    {
        let have: u32 = self.alloy(f);
        let room: u32 = u32::MAX - have;
        let accepted: u32 = if amount <= room {
            amount
        } else {
            room
        };
        self.set(f, have + accepted);
        accepted
    }

    /// All-or-nothing spend: the single place a cost is ever charged.
    #[must_use]
    pub fn try_spend(&mut self, f: Faction, amount: u32) -> (r: bool)
        ensures
            r == old(self).charged(f, amount) is Some,
            *final(self) == (match old(self).charged(f, amount) {
                Some(s) => s,
                None => *old(self),
            }),
    {
        let have: u32 = self.alloy(f);
        if have >= amount {
            self.set(f, have - amount);
            true
        } else {
            false
        }
    }
}

/// Which unit definition a unit has: an index into the content's units.
#[derive(Clone, Copy, PartialEq, Eq, Structural, Debug)]
pub struct UnitDefIdx(pub usize);

/// Alloy currently in a worker's hands.
#[derive(Clone, Copy, PartialEq, Eq, Structural, Debug)]
pub struct Carrying(pub u32);

/// A constructed building; `def` is an index into the content's buildings.
#[derive(Clone, Copy, PartialEq, Eq, Structural, Debug)]
pub struct Building {
    pub def: usize,
}

/// What placing a building costs, if there is such a building.
pub open spec fn placing_cost(content: &Content, building: int) -> Option<u32> {
    if 0 <= building < content.buildings@.len() {
        Some(content.buildings@[building].alloy_cost)
    } else {
        None
    }
}

/// What training a unit at a building costs, if the building produces it.
pub open spec fn training_cost(content: &Content, building: int, unit: int) -> Option<u32> {
    if 0 <= unit < content.units@.len() && content.can_produce(building, unit) {
        Some(content.units@[unit].mvp_alloy_cost)
    } else {
        None
    }
}

/// The stockpiles after `f` paid a cost; `None` if there is nothing to pay for,
/// or not enough to pay it with.
pub open spec fn paid(stock: Stockpiles, f: Faction, cost: Option<u32>) -> Option<Stockpiles> {
    match cost {
        Some(c) => stock.charged(f, c),
        None => None,
    }
}

/// Pay for a building. A rejected order costs nothing, an accepted one is
/// charged once; the caller puts the building into the world iff this says so.
pub fn place_building(content: &Content, stock: &mut Stockpiles, faction: Faction, building: usize)
    -> (r: bool)
    ensures
        ({
            let after = paid(*old(stock), faction, placing_cost(content, building as int));
            &&& r == after is Some
            &&& *final(stock) == match after {
                Some(s) => s,
                None => *old(stock),
            }
        }),
{
    if building >= content.buildings.len() {
        return false;
    }
    stock.try_spend(faction, content.buildings[building].alloy_cost)
}

/// Apply a "train this unit here" order: charge once, then enqueue. Rejected
/// (unknown ids, a building that does not produce the unit, or not enough
/// Alloy): nothing is spent and nothing queued.
pub fn enqueue_unit(
    content: &Content,
    stock: &mut Stockpiles,
    building_def: usize,
    faction: Faction,
    queue: &mut ProductionQueue,
    unit: usize,
) -> (r: bool)
    ensures
        ({
            let after = paid(
                *old(stock),
                faction,
                training_cost(content, building_def as int, unit as int),
            );
            &&& r == after is Some
            &&& match after {
                Some(s) => *final(stock) == s && final(queue)@ == old(queue)@.push(
                    (QueuedUnit { unit, ticks_left: content.units@[unit as int].mvp_train_ticks }),
                ),
                None => *final(stock) == *old(stock) && final(queue)@ == old(queue)@,
            }
        }),
{
    match charge_unit(content, stock, building_def, faction, unit) {
        Some(item) => {
            queue.push(item);
            true
        },
        None => false,
    }
}

/// Pay for a unit and give back the queue entry it bought.
pub fn charge_unit(
    content: &Content,
    stock: &mut Stockpiles,
    building_def: usize,
    faction: Faction,
    unit: usize,
) -> (r: Option<QueuedUnit>)
    ensures
        ({
            let after = paid(
                *old(stock),
                faction,
                training_cost(content, building_def as int, unit as int),
            );
            match after {
                Some(s) => *final(stock) == s && r == Some(
                    (QueuedUnit { unit, ticks_left: content.units@[unit as int].mvp_train_ticks }),
                ),
                None => *final(stock) == *old(stock) && r is None,
            }
        }),
{
    if unit >= content.units.len() || !content.produces(building_def, unit) {
        return None;
    }
    if !stock.try_spend(faction, content.units[unit].mvp_alloy_cost) {
        return None;
    }
    Some(QueuedUnit { unit, ticks_left: content.units[unit].mvp_train_ticks })
}

// ---- laws -------------------------------------------------------------------

/// Alloy that is banked has only changed hands: what the stockpile gained and
/// what was left over make up the amount, and the other side is untouched.
pub proof fn banking_moves_alloy(stock: Stockpiles, f: Faction, amount: u32)
    ensures
        ({
            let accepted = stock.room(f, amount);
            let after = stock.with(f, (stock.of(f) + accepted) as u32);
            &&& accepted <= amount
            &&& after.total() == stock.total() + accepted
            &&& after.of(f.foe()) == stock.of(f.foe())
            &&& stock.of(f) + amount <= u32::MAX ==> accepted == amount
        }),
{
}

/// A spend is all or nothing: it goes through exactly when the faction can
/// afford it, takes exactly the amount, and never touches the other side.
pub proof fn spending_is_all_or_nothing(stock: Stockpiles, f: Faction, amount: u32)
    ensures
        stock.charged(f, amount) is Some <==> amount <= stock.of(f),
        stock.charged(f, amount) matches Some(after) ==> after.total() == stock.total() - amount
            && after.of(f) == stock.of(f) - amount && after.of(f.foe()) == stock.of(f.foe()),
{
}

/// A building is paid for exactly if there is such a building and its side has
/// what it costs. The cost leaves that side's stockpile, once; the other side's
/// stays.
pub proof fn a_building_is_paid_for(stock: Stockpiles, f: Faction, content: &Content, building: int)
    ensures
        ({
            let after = paid(stock, f, placing_cost(content, building));
            let known = 0 <= building < content.buildings@.len();
            let cost = content.buildings@[building].alloy_cost;
            &&& after is Some <==> known && cost <= stock.of(f)
            &&& after matches Some(s) ==> s.of(f) + cost == stock.of(f) && s.of(f.foe())
                == stock.of(f.foe())
        }),
{
}

/// A unit is paid for exactly if there is such a unit, the building produces it
/// and its side has what it costs.
pub proof fn a_unit_is_paid_for(
    stock: Stockpiles,
    f: Faction,
    content: &Content,
    building: int,
    unit: int,
)
    ensures
        ({
            let after = paid(stock, f, training_cost(content, building, unit));
            let known = 0 <= building < content.buildings@.len() && 0 <= unit
                < content.units@.len();
            let cost = content.units@[unit].mvp_alloy_cost;
            let listed = exists|i: int|
                0 <= i < content.buildings@[building].produces@.len() && (
                #[trigger] content.buildings@[building].produces@[i])@ == content.units@[unit].id@;
            &&& after is Some <==> known && listed && cost <= stock.of(f)
            &&& after matches Some(s) ==> s.of(f) + cost == stock.of(f) && s.of(f.foe())
                == stock.of(f.foe())
        }),
{
    let list = content.buildings@[building].produces@;
    let id = content.units@[unit].id@;
    lookup::lemma_first_at(text::views(list), id, 0);
    assert forall|i: int| 0 <= i < list.len() implies text::views(list)[i] == (
    #[trigger] list[i])@ by {}
}

/// Each side has its own stockpile.
pub proof fn stockpiles_are_apart(stock: Stockpiles, f: Faction, amount: u32)
    ensures
        stock.of(Faction::A) == stock.a,
        stock.of(Faction::B) == stock.b,
        stock.with(f, amount).of(f) == amount,
        stock.with(f, amount).of(f.foe()) == stock.of(f.foe()),
        f.foe() != f,
        f.foe().foe() == f,
{
}

} // verus!
