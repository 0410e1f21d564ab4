//! What a playable content set is, stated of every definition at once, and the
//! proof that [`Content::validate`] accepts exactly these.

use vstd::prelude::*;

use crate::float::F32;
use crate::sim::content::lookup;
use crate::sim::content::script;
use crate::sim::content::validate;
use crate::sim::content::{
    ArmyItem, BuildingDef, CombatDef, Content, NemesisBonus, StrategyDef, UnitDef,
};
use crate::text;

verus! {

/// A building costs something, can be destroyed, stays on the design scale and
/// trains only units that exist.
pub open spec fn building_ok(c: &Content, b: BuildingDef) -> bool {
    &&& b.alloy_cost > 0
    &&& 0 < b.mvp_defense <= c.combat.max_stat
    &&& b.mvp_armor <= c.combat.max_stat
    &&& forall|k: int|
        0 <= k < b.produces@.len() ==> c.unit_pos((#[trigger] b.produces@[k])@) is Some
}

/// A unit costs something, takes time, is trained somewhere, can be killed and
/// can move, stays on the design scale, and has attack data exactly if it has
/// offense.
pub open spec fn unit_ok(c: &Content, u: UnitDef) -> bool {
    &&& u.mvp_alloy_cost > 0
    &&& u.mvp_train_ticks > 0
    &&& u.gathers ==> u.mvp_carry_capacity > 0 && u.mvp_gather_ticks > 0
    &&& exists|b: int|
        0 <= b < c.buildings@.len() && lookup::listed(
            (#[trigger] c.buildings@[b]).produces@,
            u.id@,
        )
    &&& u.offense <= c.combat.max_stat
    &&& 0 < u.defense <= c.combat.max_stat
    &&& u.armor <= c.combat.max_stat
    &&& 0 < u.speed <= c.combat.max_stat
    &&& if u.offense > 0 {
        &&& u.mvp_attack_ticks > 0
        &&& u.mvp_attack_range.finite_positive()
        &&& !c.combat.engage_range.less(u.mvp_attack_range)
    } else {
        u.mvp_attack_ticks == 0 && u.mvp_attack_range.same(F32::zero())
    }
    &&& u.nemesis matches Some(prey) ==> c.unit_pos(prey@) is Some
}

/// Every factor is positive, every radius finite, and every product at the
/// largest legal stat fits the integers the sim counts in.
pub open spec fn combat_ok(c: CombatDef, bonus: NemesisBonus) -> bool {
    &&& c.building_hp_per_defense > 0
    &&& c.hp_per_defense > 0
    &&& c.damage_per_offense > 0
    &&& c.mitigation_per_armor > 0
    &&& c.speed_per_point.finite_positive()
    &&& c.engage_range.finite_positive()
    &&& c.pursue_range.finite()
    &&& !c.pursue_range.less(c.engage_range)
    &&& c.max_stat > 0
    &&& bonus.damage_mult.finite()
    &&& F32::one().at_most(bonus.damage_mult)
    &&& bonus.milli() is Some
    &&& c.max_stat * c.hp_per_defense <= u32::MAX
    &&& c.max_stat * c.damage_per_offense <= u32::MAX
    &&& c.max_stat * c.damage_per_offense * bonus.milli()->0 <= u64::MAX
    &&& (c.max_stat as nat * c.damage_per_offense as nat * bonus.milli()->0) / 1_000 <= u32::MAX
    &&& c.max_stat * c.mitigation_per_armor <= u32::MAX
    &&& c.max_stat * c.building_hp_per_defense <= u32::MAX
}

/// Exactly one building is the victory target.
pub open spec fn one_victory(all: Seq<BuildingDef>) -> bool {
    exists|i: int|
        0 <= i < all.len() && (#[trigger] all[i]).victory && forall|j: int|
            0 <= j < all.len() && (#[trigger] all[j]).victory ==> j == i
}

/// Every entry of a build order has a count and names a unit that exists.
pub open spec fn entry_ok(c: &Content, item: ArmyItem) -> bool {
    item.count > 0 && c.unit_pos(item.unit@) is Some
}

/// The opening script counts in positive ticks, opens with a building that can
/// be placed, and orders only what that building trains.
pub open spec fn ai_ok(c: &Content) -> bool {
    let ai = c.ai;
    &&& ai.think_interval_ticks > 0
    &&& ai.attack_interval_ticks > 0
    &&& ai.worker_target > 0
    &&& ai.attack_at_army > 0
    &&& ai.barracks_offset.finite_positive()
    &&& ai.attack_spread.finite()
    &&& F32::zero().at_most(ai.attack_spread)
    &&& c.building_pos(ai.barracks@) is Some
    &&& !c.buildings@[c.building_pos(ai.barracks@)->0].victory
    &&& ai.army@.len() > 0
    &&& forall|k: int|
        0 <= k < ai.army@.len() ==> entry_ok(c, #[trigger] ai.army@[k]) && c.can_produce(
            c.building_pos(ai.barracks@)->0,
            c.unit_pos(ai.army@[k].unit@)->0,
        )
    &&& script::army_size(ai.army@) <= u32::MAX
}

pub open spec fn economy_ok(c: &Content) -> bool {
    &&& exists|k: int|
        0 <= k < c.resources@.len() && (#[trigger] c.resources@[k]).id@ == c.economy.currency@
    &&& c.economy.gather_range.finite_positive()
    &&& c.economy.deposit_range.finite_positive()
}

/// One of the barracks a strategy opens trains the unit.
pub open spec fn opens_for(c: &Content, s: StrategyDef, unit: int) -> bool {
    exists|k: int|
        0 <= k < s.barracks@.len() && c.building_pos((#[trigger] s.barracks@[k]).building@) is Some
            && c.can_produce(c.building_pos(s.barracks@[k].building@)->0, unit)
}

/// A strategy counts in positive ticks, opens barracks that can be placed, and
/// orders only what they train.
pub open spec fn strategy_ok(c: &Content, s: StrategyDef) -> bool {
    &&& s.think_interval_ticks > 0
    &&& s.attack_interval_ticks > 0
    &&& s.worker_target > 0
    &&& s.attack_at_army > 0
    &&& s.attack_spread.finite()
    &&& F32::zero().at_most(s.attack_spread)
    &&& s.barracks@.len() > 0
    &&& forall|k: int|
        0 <= k < s.barracks@.len() ==> {
            let o = #[trigger] s.barracks@[k];
            &&& c.building_pos(o.building@) is Some
            &&& !c.buildings@[c.building_pos(o.building@)->0].victory
            &&& o.offset.finite_positive()
        }
    &&& s.army@.len() > 0
    &&& forall|k: int|
        0 <= k < s.army@.len() ==> entry_ok(c, #[trigger] s.army@[k]) && opens_for(
            c,
            s,
            c.unit_pos(s.army@[k].unit@)->0,
        )
    &&& script::army_size(s.army@) <= u32::MAX
}

/// The sim can run this content.
pub open spec fn playable(c: &Content) -> bool {
    &&& lookup::distinct(lookup::unit_ids(c.units@))
    &&& lookup::distinct(lookup::building_ids(c.buildings@))
    &&& lookup::distinct(validate::resource_ids(c.resources@))
    &&& lookup::distinct(lookup::strategy_ids(c.strategies@))
    &&& forall|k: int| 0 <= k < c.buildings@.len() ==> building_ok(c, #[trigger] c.buildings@[k])
    &&& forall|k: int| 0 <= k < c.units@.len() ==> unit_ok(c, #[trigger] c.units@[k])
    &&& combat_ok(c.combat, c.nemesis_bonus)
    &&& one_victory(c.buildings@)
    &&& ai_ok(c)
    &&& economy_ok(c)
    &&& forall|k: int| 0 <= k < c.strategies@.len() ==> strategy_ok(c, #[trigger] c.strategies@[k])
    &&& c.scripted() ==> c.strategy_pos(c.default_strategy@) is Some
}

proof fn lemma_dup(ids: Seq<Seq<char>>, i: int)
    requires
        0 <= i <= ids.len(),
    ensures
        validate::dup_from(ids, i) is None <==> forall|a: int, b: int|
            0 <= a < b < ids.len() && b >= i ==> #[trigger] ids[a] != #[trigger] ids[b],
    decreases ids.len() - i,
{
    if i < ids.len() {
        lemma_dup(ids, i + 1);
        let head = ids.take(i);
        lookup::lemma_first_at(head, ids[i], 0);
        match lookup::first_at(head, ids[i], 0) {
            Some(j) => {
                assert(head[j] == ids[j]);
                assert(ids[j] == ids[i]);
            },
            None => {
                assert forall|a: int, b: int| 0 <= a < b < ids.len() && b >= i && validate::dup_from(
                    ids,
                    i + 1,
                ) is None implies #[trigger] ids[a] != #[trigger] ids[b] by {
                    if b == i {
                        assert(head[a] == ids[a]);
                    }
                }
            },
        }
    }
}

proof fn lemma_produces(c: &Content, b: &BuildingDef, k: int)
    requires
        0 <= k <= b.produces@.len(),
    ensures
        validate::produces_problem(c, b, k) is None <==> forall|i: int|
            k <= i < b.produces@.len() ==> c.unit_pos((#[trigger] b.produces@[i])@) is Some,
    decreases b.produces@.len() - k,
{
    if k < b.produces@.len() {
        lemma_produces(c, b, k + 1);
    }
}

proof fn lemma_buildings(c: &Content, k: int)
    requires
        0 <= k <= c.buildings@.len(),
    ensures
        validate::buildings_problem(c, k) is None <==> forall|i: int|
            k <= i < c.buildings@.len() ==> building_ok(c, #[trigger] c.buildings@[i]),
    decreases c.buildings@.len() - k,
{
    if k < c.buildings@.len() {
        lemma_buildings(c, k + 1);
        lemma_produces(c, &c.buildings@[k], 0);
        assert(validate::building_problem(c, &c.buildings@[k]) is None <==> building_ok(
            c,
            c.buildings@[k],
        ));
    }
}

proof fn lemma_units(c: &Content, k: int)
    requires
        0 <= k <= c.units@.len(),
    ensures
        validate::units_problem(c, k) is None <==> forall|i: int|
            k <= i < c.units@.len() ==> unit_ok(c, #[trigger] c.units@[i]),
    decreases c.units@.len() - k,
{
    if k < c.units@.len() {
        lemma_units(c, k + 1);
        assert(validate::unit_problem(c, &c.units@[k]) is None <==> unit_ok(c, c.units@[k]));
    }
}

proof fn lemma_combat(c: &CombatDef, bonus: &NemesisBonus, shown: Seq<char>)
    ensures
        validate::combat_problem(c, bonus, shown) is None <==> combat_ok(*c, *bonus),
{
    if bonus.milli() is Some {
        let m = c.max_stat as nat;
        let base = m * c.damage_per_offense as nat;
        let milli = bonus.milli()->0;
        if base * milli > u64::MAX {
            assert(validate::peak_damage(base, milli) > u32::MAX);
        }
    }
}

proof fn lemma_victory(all: Seq<BuildingDef>)
    ensures
        validate::victory_ids(all).len() == 0 <==> forall|j: int|
            0 <= j < all.len() ==> !(#[trigger] all[j]).victory,
        validate::victory_ids(all).len() == 1 <==> one_victory(all),
    decreases all.len(),
{
    if all.len() > 0 {
        let rest = all.drop_last();
        let n = all.len() - 1;
        lemma_victory(rest);
        assert forall|j: int| 0 <= j < n implies rest[j] == #[trigger] all[j] by {}
        if one_victory(rest) {
            let i = choose|i: int|
                0 <= i < rest.len() && (#[trigger] rest[i]).victory && forall|j: int|
                    0 <= j < rest.len() && (#[trigger] rest[j]).victory ==> j == i;
            assert(all[i].victory);
            if !all[n].victory {
                assert(forall|j: int| 0 <= j < all.len() && (#[trigger] all[j]).victory ==> j == i);
            } else if one_victory(all) {
                let k = choose|k: int|
                    0 <= k < all.len() && (#[trigger] all[k]).victory && forall|j: int|
                        0 <= j < all.len() && (#[trigger] all[j]).victory ==> j == k;
                assert(i == k && n == k);
            }
        }
        if one_victory(all) {
            let k = choose|k: int|
                0 <= k < all.len() && (#[trigger] all[k]).victory && forall|j: int|
                    0 <= j < all.len() && (#[trigger] all[j]).victory ==> j == k;
            if k < n {
                assert(rest[k].victory);
                assert(!all[n].victory);
            } else {
                assert(forall|j: int| 0 <= j < rest.len() ==> !(#[trigger] rest[j]).victory);
            }
        }
        if all[n].victory && (forall|j: int| 0 <= j < rest.len() ==> !(#[trigger] rest[j]).victory) {
            assert(forall|j: int| 0 <= j < all.len() && (#[trigger] all[j]).victory ==> j == n);
            assert(one_victory(all));
        }
    }
}

proof fn lemma_army(c: &Content, b: int, k: int)
    requires
        0 <= k <= c.ai.army@.len(),
    ensures
        validate::army_problem(c, b, k) is None <==> forall|i: int|
            k <= i < c.ai.army@.len() ==> entry_ok(c, #[trigger] c.ai.army@[i]) && c.can_produce(
                b,
                c.unit_pos(c.ai.army@[i].unit@)->0,
            ),
    decreases c.ai.army@.len() - k,
{
    if k < c.ai.army@.len() {
        lemma_army(c, b, k + 1);
    }
}

proof fn lemma_openings(c: &Content, s: &StrategyDef, k: int)
    requires
        0 <= k <= s.barracks@.len(),
    ensures
        validate::openings_problem(c, s, k) is None <==> forall|i: int|
            k <= i < s.barracks@.len() ==> {
                let o = #[trigger] s.barracks@[i];
                &&& c.building_pos(o.building@) is Some
                &&& !c.buildings@[c.building_pos(o.building@)->0].victory
                &&& o.offset.finite_positive()
            },
    decreases s.barracks@.len() - k,
{
    if k < s.barracks@.len() {
        lemma_openings(c, s, k + 1);
    }
}

proof fn lemma_opened(c: &Content, s: &StrategyDef, unit: int, k: int)
    requires
        0 <= k <= s.barracks@.len(),
    ensures
        validate::opened_for(c, s, unit, k) <==> exists|i: int|
            k <= i < s.barracks@.len() && c.building_pos((#[trigger] s.barracks@[i]).building@) is Some
                && c.can_produce(c.building_pos(s.barracks@[i].building@)->0, unit),
    decreases s.barracks@.len() - k,
{
    if k < s.barracks@.len() {
        lemma_opened(c, s, unit, k + 1);
    }
}

proof fn lemma_strategy_army(c: &Content, s: &StrategyDef, k: int)
    requires
        0 <= k <= s.army@.len(),
    ensures
        validate::strategy_army_problem(c, s, k) is None <==> forall|i: int|
            k <= i < s.army@.len() ==> entry_ok(c, #[trigger] s.army@[i]) && opens_for(
                c,
                *s,
                c.unit_pos(s.army@[i].unit@)->0,
            ),
    decreases s.army@.len() - k,
{
    if k < s.army@.len() {
        lemma_strategy_army(c, s, k + 1);
        lemma_opened(c, s, c.unit_pos(s.army@[k].unit@)->0, 0);
    }
}

proof fn lemma_strategies(c: &Content, k: int)
    requires
        0 <= k <= c.strategies@.len(),
    ensures
        validate::strategies_problem(c, k) is None <==> forall|i: int|
            k <= i < c.strategies@.len() ==> strategy_ok(c, #[trigger] c.strategies@[i]),
    decreases c.strategies@.len() - k,
{
    if k < c.strategies@.len() {
        lemma_strategies(c, k + 1);
        let s = &c.strategies@[k];
        lemma_openings(c, s, 0);
        lemma_strategy_army(c, s, 0);
        assert(validate::strategy_problem(c, s) is None <==> strategy_ok(c, *s));
    }
}

proof fn lemma_ai(c: &Content)
    ensures
        validate::ai_problem(c) is None <==> ai_ok(c),
{
    if c.building_pos(c.ai.barracks@) is Some {
        lemma_army(c, c.building_pos(c.ai.barracks@)->0, 0);
    }
}

proof fn lemma_economy(c: &Content)
    ensures
        validate::economy_problem(c) is None <==> economy_ok(c),
{
    let ids = validate::resource_ids(c.resources@);
    lookup::lemma_first_at(ids, c.economy.currency@, 0);
    match lookup::first_at(ids, c.economy.currency@, 0) {
        Some(i) => {
            assert(c.resources@[i].id@ == ids[i]);
        },
        None => {
            assert forall|k: int| 0 <= k < c.resources@.len() implies (
            #[trigger] c.resources@[k]).id@ != c.economy.currency@ by {
                assert(ids[k] == c.resources@[k].id@);
            }
        },
    }
}

/// Content is accepted exactly if it is playable, whatever is shown for the
/// multiplier.
pub proof fn accepted_iff_playable(c: &Content, shown: Seq<char>)
    ensures
        c.problem(shown) is None <==> playable(c),
{
    lemma_dup(lookup::unit_ids(c.units@), 0);
    lemma_dup(lookup::building_ids(c.buildings@), 0);
    lemma_dup(validate::resource_ids(c.resources@), 0);
    lemma_dup(lookup::strategy_ids(c.strategies@), 0);
    lemma_buildings(c, 0);
    lemma_units(c, 0);
    lemma_combat(&c.combat, &c.nemesis_bonus, shown);
    lemma_victory(c.buildings@);
    lemma_ai(c);
    lemma_economy(c);
    lemma_strategies(c, 0);
}

/// In playable content a name and an index say the same thing: the definition
/// at an index is the one its id finds.
pub proof fn names_are_indices(c: &Content)
    requires
        playable(c),
    ensures
        forall|i: int|
            0 <= i < c.units@.len() ==> c.unit_pos((#[trigger] c.units@[i]).id@) == Some(i),
        forall|i: int|
            0 <= i < c.buildings@.len() ==> c.building_pos((#[trigger] c.buildings@[i]).id@) == Some(
                i,
            ),
        forall|i: int|
            0 <= i < c.strategies@.len() ==> c.strategy_pos((#[trigger] c.strategies@[i]).id@)
                == Some(i),
{
    assert forall|i: int| 0 <= i < c.units@.len() implies c.unit_pos((#[trigger] c.units@[i]).id@)
        == Some(i) by {
        lookup::index_id_index(lookup::unit_ids(c.units@), i);
    }
    assert forall|i: int| 0 <= i < c.buildings@.len() implies c.building_pos(
        (#[trigger] c.buildings@[i]).id@,
    ) == Some(i) by {
        lookup::index_id_index(lookup::building_ids(c.buildings@), i);
    }
    assert forall|i: int| 0 <= i < c.strategies@.len() implies c.strategy_pos(
        (#[trigger] c.strategies@[i]).id@,
    ) == Some(i) by {
        lookup::index_id_index(lookup::strategy_ids(c.strategies@), i);
    }
}

/// What is accepted can be fielded: every unit costs something and takes time to
/// train at some building, can be killed and can move; one that does harm has a
/// rhythm and a reach that its acquisition covers; one that gathers has a load
/// and a time for it; and a nemesis is somebody.
pub proof fn accepted_units_can_be_fielded(c: &Content, shown: Seq<char>, k: int)
    requires
        c.problem(shown) is None,
        0 <= k < c.units@.len(),
    ensures
        ({
            let u = c.units@[k];
            &&& u.mvp_alloy_cost > 0
            &&& u.mvp_train_ticks > 0
            &&& u.defense > 0
            &&& u.speed > 0
            &&& u.offense <= c.combat.max_stat
            &&& u.defense <= c.combat.max_stat
            &&& u.armor <= c.combat.max_stat
            &&& u.speed <= c.combat.max_stat
            &&& u.offense > 0 ==> u.mvp_attack_ticks > 0 && u.mvp_attack_range.finite_positive()
                && !c.combat.engage_range.less(u.mvp_attack_range)
            &&& u.offense == 0 ==> u.mvp_attack_ticks == 0
            &&& u.gathers ==> u.mvp_carry_capacity > 0 && u.mvp_gather_ticks > 0
            &&& exists|b: int, i: int|
                #![trigger c.buildings@[b].produces@[i]]
                0 <= b < c.buildings@.len() && 0 <= i < c.buildings@[b].produces@.len()
                    && c.buildings@[b].produces@[i]@ == u.id@
            &&& u.nemesis matches Some(p) ==> exists|v: int|
                0 <= v < c.units@.len() && (#[trigger] c.units@[v]).id@ == p@
            &&& forall|j: int|
                0 <= j < c.units@.len() && j != k ==> (#[trigger] c.units@[j]).id@ != u.id@
        }),
{
    accepted_iff_playable(c, shown);
    let u = c.units@[k];
    assert(unit_ok(c, u));
    let b = choose|b: int|
        0 <= b < c.buildings@.len() && lookup::listed(
            (#[trigger] c.buildings@[b]).produces@,
            u.id@,
        );
    let list = text::views(c.buildings@[b].produces@);
    lookup::lemma_first_at(list, u.id@, 0);
    let i = lookup::first_at(list, u.id@, 0)->0;
    assert(c.buildings@[b].produces@[i]@ == list[i]);
    let ids = lookup::unit_ids(c.units@);
    assert(ids[k] == u.id@);
    assert forall|j: int| 0 <= j < c.units@.len() && j != k implies (#[trigger] c.units@[j]).id@
        != u.id@ by {
        assert(ids[j] == c.units@[j].id@);
    }
    match u.nemesis {
        Some(p) => {
            lookup::lemma_first_at(ids, p@, 0);
            let v = c.unit_pos(p@)->0;
            assert(c.units@[v].id@ == ids[v]);
        },
        None => {},
    }
}

/// What is accepted can be lost and won: every building costs something, can be
/// destroyed and trains only units that exist, and exactly one kind of building
/// decides the match.
pub proof fn accepted_buildings_can_be_placed(c: &Content, shown: Seq<char>, k: int, i: int)
    requires
        c.problem(shown) is None,
        0 <= k < c.buildings@.len(),
    ensures
        ({
            let b = c.buildings@[k];
            &&& b.alloy_cost > 0
            &&& b.mvp_defense > 0
            &&& b.mvp_defense <= c.combat.max_stat
            &&& b.mvp_armor <= c.combat.max_stat
            &&& 0 <= i < b.produces@.len() ==> exists|u: int|
                0 <= u < c.units@.len() && (#[trigger] c.units@[u]).id@ == b.produces@[i]@
            &&& exists|v: int| 0 <= v < c.buildings@.len() && (#[trigger] c.buildings@[v]).victory
            &&& forall|j: int|
                0 <= j < c.buildings@.len() && j != k && (#[trigger] c.buildings@[j]).victory
                    ==> !b.victory
            &&& forall|j: int|
                0 <= j < c.buildings@.len() && j != k ==> (#[trigger] c.buildings@[j]).id@ != b.id@
        }),
{
    accepted_iff_playable(c, shown);
    let b = c.buildings@[k];
    assert(building_ok(c, b));
    if 0 <= i < b.produces@.len() {
        let ids = lookup::unit_ids(c.units@);
        let id = b.produces@[i]@;
        assert(c.unit_pos(id) is Some);
        lookup::lemma_first_at(ids, id, 0);
        let u = c.unit_pos(id)->0;
        assert(c.units@[u].id@ == ids[u]);
    }
    let names = lookup::building_ids(c.buildings@);
    assert(names[k] == b.id@);
    assert forall|j: int| 0 <= j < c.buildings@.len() && j != k implies (
    #[trigger] c.buildings@[j]).id@ != b.id@ by {
        assert(names[j] == c.buildings@[j].id@);
    }
}

/// A script that is accepted can be followed: it thinks and attacks at some pace,
/// wants workers and an army, opens only buildings that exist and whose loss does
/// not decide the match, and orders each unit at a count.
pub proof fn accepted_scripts_can_be_followed(c: &Content, shown: Seq<char>, k: int, o: int, a: int)
    requires
        c.problem(shown) is None,
        0 <= k < c.strategies@.len(),
    ensures
        ({
            let s = c.strategies@[k];
            &&& s.think_interval_ticks > 0
            &&& s.attack_interval_ticks > 0
            &&& s.worker_target > 0
            &&& s.attack_at_army > 0
            &&& s.attack_spread.finite()
            &&& s.barracks@.len() > 0
            &&& s.army@.len() > 0
            &&& 0 <= o < s.barracks@.len() ==> s.barracks@[o].offset.finite_positive() && exists|
                b: int,
            |
                0 <= b < c.buildings@.len() && (#[trigger] c.buildings@[b]).id@
                    == s.barracks@[o].building@ && !c.buildings@[b].victory
            &&& 0 <= a < s.army@.len() ==> s.army@[a].count > 0 && exists|u: int|
                0 <= u < c.units@.len() && (#[trigger] c.units@[u]).id@ == s.army@[a].unit@
            &&& exists|d: int|
                0 <= d < c.strategies@.len() && (#[trigger] c.strategies@[d]).id@
                    == c.default_strategy@
        }),
{
    accepted_iff_playable(c, shown);
    let s = c.strategies@[k];
    assert(strategy_ok(c, s));
    if 0 <= o < s.barracks@.len() {
        let id = s.barracks@[o].building@;
        let ids = lookup::building_ids(c.buildings@);
        assert(c.building_pos(id) is Some);
        lookup::lemma_first_at(ids, id, 0);
        let b = c.building_pos(id)->0;
        assert(c.buildings@[b].id@ == ids[b]);
    }
    if 0 <= a < s.army@.len() {
        let id = s.army@[a].unit@;
        let ids = lookup::unit_ids(c.units@);
        assert(entry_ok(c, s.army@[a]));
        lookup::lemma_first_at(ids, id, 0);
        let u = c.unit_pos(id)->0;
        assert(c.units@[u].id@ == ids[u]);
    }
    let names = lookup::strategy_ids(c.strategies@);
    lookup::lemma_first_at(names, c.default_strategy@, 0);
    let d = c.strategy_pos(c.default_strategy@)->0;
    assert(c.strategies@[d].id@ == names[d]);
}

} // verus!
