//! Hit points, the damage formula and the ledger of losses.

use vstd::prelude::*;

use crate::sim::content::{Content, NemesisBonus};
use crate::sim::spatial::Faction;
use crate::text;

verus! {

/// `a * b`, or the largest number there is.
pub open spec fn product(a: u32, b: u32) -> u32 {
    if a * b <= u32::MAX {
        (a * b) as u32
    } else {
        u32::MAX
    }
}

/// `a - b`, or nothing.
pub open spec fn less_by(a: u32, b: u32) -> u32 {
    if a >= b {
        (a - b) as u32
    } else {
        0
    }
}

fn product_of(a: u32, b: u32) -> (r: u32)
    ensures
        r == product(a, b),
{
    assert(a as u64 * b as u64 <= 0xffff_ffff * 0xffff_ffff) by (nonlinear_arith)
        requires
            a <= 0xffff_ffff,
            b <= 0xffff_ffff,
    ;
    let wide: u64 = a as u64 * b as u64;
    if wide <= u32::MAX as u64 {
        wide as u32
    } else {
        u32::MAX
    }
}

fn minus(a: u32, b: u32) -> (r: u32)
    ensures
        r == less_by(a, b),
{
    if a >= b {
        a - b
    } else {
        0
    }
}

/// A pool of hit points.
#[derive(Clone, Copy, PartialEq, Eq, Structural, Debug)]
pub struct Health {
    pub current: u32,
    pub max: u32,
}

impl Health {
    /// The full pool of a unit definition: none for one that does not exist.
    pub open spec fn full(content: &Content, unit: int) -> Health {
        let max = if 0 <= unit < content.units@.len() {
            product(content.units@[unit].defense, content.combat.hp_per_defense)
        } else {
            0
        };
        Health { current: max, max }
    }

    /// The full pool of a building definition.
    pub open spec fn full_building(content: &Content, building: int) -> Health {
        let max = if 0 <= building < content.buildings@.len() {
            product(
                content.buildings@[building].mvp_defense,
                content.combat.building_hp_per_defense,
            )
        } else {
            0
        };
        Health { current: max, max }
    }

    /// A full pool for a unit definition: its defense buys it.
    pub fn from_def(content: &Content, unit: usize) -> (r: Self)
        ensures
            r == Health::full(content, unit as int),
    {
        let max: u32 = if unit < content.units.len() {
            product_of(content.units[unit].defense, content.combat.hp_per_defense)
        } else {
            0
        };
        Health { current: max, max }
    }

    /// A full pool for a building definition.
    pub fn from_building_def(content: &Content, building: usize) -> (r: Self)
        ensures
            r == Health::full_building(content, building as int),
    {
        let max: u32 = if building < content.buildings.len() {
            product_of(
                content.buildings[building].mvp_defense,
                content.combat.building_hp_per_defense,
            )
        } else {
            0
        };
        Health { current: max, max }
    }

    /// What is left of a pool after `damage`: a floor at zero, nothing moved.
    pub fn after(self, damage: u32) -> (r: u32)
        ensures
            r == less_by(self.current, damage),
    {
        minus(self.current, damage)
    }
}

/// Units lost per faction.
#[derive(Clone, Copy, PartialEq, Eq, Structural, Debug)]
pub struct Casualties {
    pub a: u32,
    pub b: u32,
}

impl Default for Casualties {
    fn default() -> (r: Self)
        ensures
            r == (Casualties { a: 0, b: 0 }),
    {
        Casualties { a: 0, b: 0 }
    }
}

impl Casualties {
    /// What `f` has lost.
    pub open spec fn of(self, f: Faction) -> u32 {
        match f {
            Faction::A => self.a,
            Faction::B => self.b,
        }
    }

    /// The ledger after one more loss.
    pub open spec fn and(self, f: Faction) -> Casualties {
        match f {
            Faction::A => Casualties { a: (self.a + 1) as u32, b: self.b },
            Faction::B => Casualties { a: self.a, b: (self.b + 1) as u32 },
        }
    }

    pub fn lost(&self, f: Faction) -> (r: u32)
        ensures
            r == self.of(f),
    {
        match f {
            Faction::A => self.a,
            Faction::B => self.b,
        }
    }

    pub fn total(&self) -> (r: u32)
        requires
            self.a + self.b <= u32::MAX,
        ensures
            r == self.a + self.b,
    {
        self.a + self.b
    }

    /// Enter one loss.
    pub fn record(&mut self, f: Faction)
        requires
            old(self).of(f) < u32::MAX,
        ensures
            *final(self) == old(self).and(f),
    {
        match f {
            Faction::A => {
                self.a = self.a + 1;
            },
            Faction::B => {
                self.b = self.b + 1;
            },
        }
    }
}

/// Does unit definition `a` prey on `d`?
pub open spec fn preys(content: &Content, a: int, d: int) -> bool {
    match content.units@[a].nemesis {
        Some(prey) => prey@ == content.units@[d].id@,
        None => false,
    }
}

/// The damage that the nemesis bonus makes of `base`: per mille, rounded down,
/// and never past the largest number.
pub open spec fn boosted(base: u32, milli: nat) -> u32 {
    if base as nat * milli / 1000 <= u32::MAX {
        (base as nat * milli / 1000) as u32
    } else {
        u32::MAX
    }
}

/// The multiplier that damage is computed with.
pub open spec fn multiplier(content: &Content) -> nat {
    match content.nemesis_bonus.milli() {
        Some(m) => m,
        None => u32::MAX as nat,
    }
}

/// Damage of one hit: offense against flat armor, or the nemesis bonus.
pub open spec fn hit(content: &Content, a: int, d: int) -> u32 {
    if !(0 <= a < content.units@.len() && 0 <= d < content.units@.len()) {
        0
    } else {
        let base = product(content.units@[a].offense, content.combat.damage_per_offense);
        let soaked = product(content.units@[d].armor, content.combat.mitigation_per_armor);
        if preys(content, a, d) {
            if content.nemesis_bonus.ignore_armor {
                boosted(base, multiplier(content))
            } else {
                less_by(boosted(base, multiplier(content)), soaked)
            }
        } else {
            less_by(base, soaked)
        }
    }
}

/// Damage one hit from unit definition `attacker` deals to unit definition
/// `defender`, in integer arithmetic. Unknown definitions are inert.
pub fn damage_per_hit(content: &Content, attacker: usize, defender: usize) -> (r: u32)
    ensures
        r == hit(content, attacker as int, defender as int),
{
    if attacker >= content.units.len() || defender >= content.units.len() {
        return 0;
    }
    let a = &content.units[attacker];
    let d = &content.units[defender];
    let base: u32 = product_of(a.offense, content.combat.damage_per_offense);
    let soaked: u32 = product_of(d.armor, content.combat.mitigation_per_armor);
    let prey: bool = match &a.nemesis {
        Some(id) => text::same(id.as_str(), d.id.as_str()),
        None => false,
    };
    if prey {
        let milli: u32 = content.nemesis_bonus.mult_milli();
        assert(base as u64 * milli as u64 <= 0xffff_ffff * 0xffff_ffff) by (nonlinear_arith)
            requires
                base <= 0xffff_ffff,
                milli <= 0xffff_ffff,
        ;
        let wide: u64 = base as u64 * milli as u64 / NemesisBonus::MULT_SCALE as u64;
        assert(wide == base as nat * milli as nat / 1000);
        let more: u32 = if wide <= u32::MAX as u64 {
            wide as u32
        } else {
            u32::MAX
        };
        if content.nemesis_bonus.ignore_armor {
            more
        } else {
            minus(more, soaked)
        }
    } else {
        minus(base, soaked)
    }
}

// ---- laws -------------------------------------------------------------------

/// Armor can absorb a hit, never more than it: damage is never above the base,
/// and without the bonus it is the base minus the armor, or nothing.
pub proof fn armor_never_heals(content: &Content, a: int, d: int)
    requires
        0 <= a < content.units@.len(),
        0 <= d < content.units@.len(),
        !preys(content, a, d),
    ensures
        hit(content, a, d) <= product(
            content.units@[a].offense,
            content.combat.damage_per_offense,
        ),
{
}

/// `n`, or the largest number that is counted to.
pub open spec fn capped(n: int) -> int {
    if n <= u32::MAX {
        n
    } else {
        u32::MAX as int
    }
}

/// `n`, or nothing.
pub open spec fn floored(n: int) -> int {
    if n >= 0 {
        n
    } else {
        0
    }
}

/// The damage of a hit by a unit that does not prey on the other: its offense at
/// so much for a point, less the other's armor at so much for a point.
pub proof fn a_hit_is_offense_less_armor(content: &Content, a: int, d: int)
    requires
        0 <= a < content.units@.len(),
        0 <= d < content.units@.len(),
        content.units@[a].nemesis matches Some(prey) ==> prey@ != content.units@[d].id@,
    ensures
        ({
            let base = content.units@[a].offense * content.combat.damage_per_offense;
            let soaked = content.units@[d].armor * content.combat.mitigation_per_armor;
            &&& base <= u32::MAX && soaked <= base ==> hit(content, a, d) == base - soaked
            &&& base <= soaked ==> hit(content, a, d) == 0
            &&& hit(content, a, d) == floored(capped(base) - capped(soaked))
        }),
{
}

/// The damage of a hit on its prey: the offense times the multiplier, per mille
/// and rounded down, less the armor unless the bonus goes through it.
pub proof fn a_hit_on_prey_is_multiplied(content: &Content, a: int, d: int, milli: nat)
    requires
        0 <= a < content.units@.len(),
        0 <= d < content.units@.len(),
        content.units@[a].nemesis matches Some(prey) && prey@ == content.units@[d].id@,
        content.nemesis_bonus.milli() == Some(milli),
    ensures
        ({
            let base = capped(content.units@[a].offense * content.combat.damage_per_offense);
            let soaked = capped(content.units@[d].armor * content.combat.mitigation_per_armor);
            let more = capped(base * milli / 1000);
            &&& content.nemesis_bonus.ignore_armor ==> hit(content, a, d) == more
            &&& !content.nemesis_bonus.ignore_armor ==> hit(content, a, d) == floored(more - soaked)
        }),
{
}

/// A definition that does not exist neither hits nor is hit.
pub proof fn the_unknown_are_inert(content: &Content, a: int, d: int)
    requires
        !(0 <= a < content.units@.len()) || !(0 <= d < content.units@.len()),
    ensures
        hit(content, a, d) == 0,
{
}

/// A full pool holds what the definition's defense buys, and is full.
pub proof fn defense_buys_the_pool(content: &Content, k: int)
    ensures
        0 <= k < content.units@.len() ==> Health::full(content, k).max == capped(
            content.units@[k].defense * content.combat.hp_per_defense,
        ),
        0 <= k < content.buildings@.len() ==> Health::full_building(content, k).max == capped(
            content.buildings@[k].mvp_defense * content.combat.building_hp_per_defense,
        ),
        !(0 <= k < content.units@.len()) ==> Health::full(content, k).max == 0,
        !(0 <= k < content.buildings@.len()) ==> Health::full_building(content, k).max == 0,
        Health::full(content, k).current == Health::full(content, k).max,
        Health::full_building(content, k).current == Health::full_building(content, k).max,
{
}

/// A hit takes from a pool what it deals, and no more than there is.
pub proof fn a_pool_loses_what_is_dealt(current: u32, dealt: u32)
    ensures
        dealt <= current ==> less_by(current, dealt) + dealt == current,
        dealt >= current ==> less_by(current, dealt) == 0,
{
}

/// A loss is entered once, on the side that had it.
pub proof fn a_loss_is_entered_once(c: Casualties, f: Faction, g: Faction)
    requires
        c.of(f) < u32::MAX,
    ensures
        c.and(f).of(g) == c.of(g) + if f == g {
            1int
        } else {
            0int
        },
        c.of(Faction::A) == c.a,
        c.of(Faction::B) == c.b,
{
}

/// A multiplier of at least one never turns the bonus into a penalty.
pub proof fn the_bonus_is_no_penalty(base: u32, milli: nat)
    requires
        milli >= 1000,
    ensures
        boosted(base, milli) >= base,
{
    assert(base as nat * milli / 1000 >= base) by (nonlinear_arith)
        requires
            milli >= 1000,
    ;
}

} // verus!
