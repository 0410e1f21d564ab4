//! What holds of content as a whole.

use vstd::prelude::*;
use vstd::utf8::encode_utf8;

use crate::sim::content::fingerprint;
use crate::sim::content::{
    AiDef, ArmyItem, BuildingDef, CombatDef, Content, EconomyDef, NemesisBonus, Opening, ResourceDef,
    StrategyDef, UnitDef,
};
use crate::text;

verus! {

// ---- two content sets have one stream only if they are the same ---------------

pub open spec fn same_texts(a: Seq<String>, b: Seq<String>) -> bool {
    text::views(a) == text::views(b)
}

pub open spec fn same_unit(a: UnitDef, b: UnitDef) -> bool {
    &&& a.id@ == b.id@
    &&& a.name@ == b.name@
    &&& fingerprint::opt_view(a.source) == fingerprint::opt_view(b.source)
    &&& fingerprint::opt_view(a.barracks) == fingerprint::opt_view(b.barracks)
    &&& a.cost.resource@ == b.cost.resource@
    &&& a.cost.amount == b.cost.amount
    &&& a.mvp_kind == b.mvp_kind
    &&& a.mvp_alloy_cost == b.mvp_alloy_cost
    &&& a.mvp_train_ticks == b.mvp_train_ticks
    &&& a.mvp_carry_capacity == b.mvp_carry_capacity
    &&& a.mvp_gather_ticks == b.mvp_gather_ticks
    &&& a.mvp_attack_ticks == b.mvp_attack_ticks
    &&& a.mvp_attack_range == b.mvp_attack_range
    &&& a.speed == b.speed
    &&& a.offense == b.offense
    &&& a.defense == b.defense
    &&& a.armor == b.armor
    &&& fingerprint::opt_view(a.nemesis) == fingerprint::opt_view(b.nemesis)
    &&& a.gathers == b.gathers
    &&& a.builds == b.builds
}

pub open spec fn same_building(a: BuildingDef, b: BuildingDef) -> bool {
    &&& a.id@ == b.id@
    &&& a.name@ == b.name@
    &&& a.alloy_cost == b.alloy_cost
    &&& same_texts(a.produces@, b.produces@)
    &&& a.dropoff == b.dropoff
    &&& a.victory == b.victory
    &&& a.mvp_defense == b.mvp_defense
    &&& a.mvp_armor == b.mvp_armor
}

pub open spec fn same_item(a: ArmyItem, b: ArmyItem) -> bool {
    a.unit@ == b.unit@ && a.count == b.count
}

pub open spec fn same_army(a: Seq<ArmyItem>, b: Seq<ArmyItem>) -> bool {
    a.len() == b.len() && forall|i: int| 0 <= i < a.len() ==> same_item(#[trigger] a[i], b[i])
}

pub open spec fn same_ai(a: AiDef, b: AiDef) -> bool {
    &&& a.think_interval_ticks == b.think_interval_ticks
    &&& a.worker_target == b.worker_target
    &&& a.barracks@ == b.barracks@
    &&& a.barracks_at_tick == b.barracks_at_tick
    &&& a.barracks_offset == b.barracks_offset
    &&& same_army(a.army@, b.army@)
    &&& a.attack_at_army == b.attack_at_army
    &&& a.attack_interval_ticks == b.attack_interval_ticks
    &&& a.attack_spread == b.attack_spread
}

pub open spec fn same_resource(a: ResourceDef, b: ResourceDef) -> bool {
    &&& a.id@ == b.id@
    &&& a.name@ == b.name@
    &&& a.domain@ == b.domain@
    &&& a.building@ == b.building@
    &&& a.acquisition == b.acquisition
    &&& same_texts(a.powers@, b.powers@)
}

pub open spec fn same_economy(a: EconomyDef, b: EconomyDef) -> bool {
    &&& a.currency@ == b.currency@
    &&& a.starting_alloy == b.starting_alloy
    &&& a.gather_range == b.gather_range
    &&& a.deposit_range == b.deposit_range
}

pub open spec fn same_opening(a: Opening, b: Opening) -> bool {
    a.building@ == b.building@ && a.at_tick == b.at_tick && a.offset == b.offset
}

pub open spec fn same_strategy(a: StrategyDef, b: StrategyDef) -> bool {
    &&& a.id@ == b.id@
    &&& a.think_interval_ticks == b.think_interval_ticks
    &&& a.worker_target == b.worker_target
    &&& a.barracks@.len() == b.barracks@.len()
    &&& forall|i: int|
        0 <= i < a.barracks@.len() ==> same_opening(#[trigger] a.barracks@[i], b.barracks@[i])
    &&& same_army(a.army@, b.army@)
    &&& a.attack_at_army == b.attack_at_army
    &&& a.attack_interval_ticks == b.attack_interval_ticks
    &&& a.attack_spread == b.attack_spread
}

/// Every field of every definition is the same.
pub open spec fn same_content(a: Content, b: Content) -> bool {
    &&& a.units@.len() == b.units@.len()
    &&& forall|i: int| 0 <= i < a.units@.len() ==> same_unit(#[trigger] a.units@[i], b.units@[i])
    &&& a.buildings@.len() == b.buildings@.len()
    &&& forall|i: int|
        0 <= i < a.buildings@.len() ==> same_building(#[trigger] a.buildings@[i], b.buildings@[i])
    &&& a.combat == b.combat
    &&& a.nemesis_bonus == b.nemesis_bonus
    &&& same_ai(a.ai, b.ai)
    &&& a.strategies@.len() == b.strategies@.len()
    &&& forall|i: int|
        0 <= i < a.strategies@.len() ==> same_strategy(
            #[trigger] a.strategies@[i],
            b.strategies@[i],
        )
    &&& a.default_strategy@ == b.default_strategy@
    &&& a.resources@.len() == b.resources@.len()
    &&& forall|i: int|
        0 <= i < a.resources@.len() ==> same_resource(#[trigger] a.resources@[i], b.resources@[i])
    &&& same_texts(a.mvp_active@, b.mvp_active@)
    &&& same_economy(a.economy, b.economy)
}

proof fn lemma_word(v1: u64, r1: Seq<u64>, v2: u64, r2: Seq<u64>)
    requires
        fingerprint::word(v1, r1) == fingerprint::word(v2, r2),
    ensures
        v1 == v2,
        r1 == r2,
{
    reveal(fingerprint::word);
    let w1 = fingerprint::word(v1, r1);
    let w2 = fingerprint::word(v2, r2);
    assert(w1[0] == v1 && w2[0] == v2);
    assert(w1.skip(1) =~= r1);
    assert(w2.skip(1) =~= r2);
}

proof fn lemma_flag(v1: bool, r1: Seq<u64>, v2: bool, r2: Seq<u64>)
    requires
        fingerprint::flag(v1, r1) == fingerprint::flag(v2, r2),
    ensures
        v1 == v2,
        r1 == r2,
{
    lemma_word(if v1 { 1 } else { 0 }, r1, if v2 { 1 } else { 0 }, r2);
}

proof fn lemma_chars(s1: Seq<char>, r1: Seq<u64>, s2: Seq<char>, r2: Seq<u64>)
    requires
        encode_utf8(s1).len() <= u64::MAX,
        encode_utf8(s2).len() <= u64::MAX,
        fingerprint::chars(s1, r1) == fingerprint::chars(s2, r2),
    ensures
        s1 == s2,
        r1 == r2,
{
    reveal(fingerprint::chars);
    let b1 = encode_utf8(s1);
    let b2 = encode_utf8(s2);
    let w1 = b1.map_values(|b: u8| b as u64);
    let w2 = b2.map_values(|b: u8| b as u64);
    lemma_word(b1.len() as u64, w1 + r1, b2.len() as u64, w2 + r2);
    assert(b1 =~= b2) by {
        assert forall|i: int| 0 <= i < b1.len() implies b1[i] == b2[i] by {
            assert((w1 + r1)[i] == w1[i]);
            assert((w2 + r2)[i] == w2[i]);
        }
    }
    assert((w1 + r1).skip(w1.len() as int) =~= r1);
    assert((w2 + r2).skip(w2.len() as int) =~= r2);
    vstd::utf8::encode_utf8_decode_utf8(s1);
    vstd::utf8::encode_utf8_decode_utf8(s2);
}

/// A text is no longer than memory can be.
pub open spec fn fits(s: Seq<char>) -> bool {
    encode_utf8(s).len() <= u64::MAX
}

pub open spec fn opt_fits(s: Option<String>) -> bool {
    s matches Some(t) ==> fits(t@)
}

pub open spec fn list_fits(all: Seq<String>) -> bool {
    forall|i: int| 0 <= i < all.len() ==> fits((#[trigger] all[i])@)
}

pub open spec fn unit_fits(u: UnitDef) -> bool {
    fits(u.id@) && fits(u.name@) && opt_fits(u.source) && opt_fits(u.barracks) && fits(
        u.cost.resource@,
    ) && opt_fits(u.nemesis)
}

pub open spec fn building_fits(b: BuildingDef) -> bool {
    fits(b.id@) && fits(b.name@) && list_fits(b.produces@)
}

pub open spec fn army_fits(all: Seq<ArmyItem>) -> bool {
    forall|i: int| 0 <= i < all.len() ==> fits((#[trigger] all[i]).unit@)
}

pub open spec fn resource_fits(r: ResourceDef) -> bool {
    fits(r.id@) && fits(r.name@) && fits(r.domain@) && fits(r.building@) && list_fits(r.powers@)
}

pub open spec fn strategy_fits(s: StrategyDef) -> bool {
    fits(s.id@) && army_fits(s.army@) && forall|i: int|
        0 <= i < s.barracks@.len() ==> fits((#[trigger] s.barracks@[i]).building@)
}

/// No text of the content set is longer than memory can be. Every content set
/// that exists is such.
pub open spec fn content_fits(c: Content) -> bool {
    &&& forall|i: int| 0 <= i < c.units@.len() ==> unit_fits(#[trigger] c.units@[i])
    &&& forall|i: int| 0 <= i < c.buildings@.len() ==> building_fits(#[trigger] c.buildings@[i])
    &&& fits(c.ai.barracks@) && army_fits(c.ai.army@)
    &&& forall|i: int| 0 <= i < c.strategies@.len() ==> strategy_fits(#[trigger] c.strategies@[i])
    &&& fits(c.default_strategy@)
    &&& forall|i: int| 0 <= i < c.resources@.len() ==> resource_fits(#[trigger] c.resources@[i])
    &&& list_fits(c.mvp_active@)
    &&& fits(c.economy.currency@)
}

proof fn lemma_opt(s1: Option<String>, r1: Seq<u64>, s2: Option<String>, r2: Seq<u64>)
    requires
        opt_fits(s1),
        opt_fits(s2),
        fingerprint::opt_chars(fingerprint::opt_view(s1), r1) == fingerprint::opt_chars(
            fingerprint::opt_view(s2),
            r2,
        ),
    ensures
        fingerprint::opt_view(s1) == fingerprint::opt_view(s2),
        r1 == r2,
{
    match (s1, s2) {
        (None, None) => lemma_word(0, r1, 0, r2),
        (None, Some(t)) => lemma_word(0, r1, 1, fingerprint::chars(t@, r2)),
        (Some(t), None) => lemma_word(1, fingerprint::chars(t@, r1), 0, r2),
        (Some(t), Some(u)) => {
            lemma_word(1, fingerprint::chars(t@, r1), 1, fingerprint::chars(u@, r2));
            lemma_chars(t@, r1, u@, r2);
        },
    }
}

proof fn lemma_texts(a: Seq<String>, r1: Seq<u64>, b: Seq<String>, r2: Seq<u64>, i: int)
    requires
        a.len() == b.len(),
        list_fits(a),
        list_fits(b),
        0 <= i <= a.len(),
        fingerprint::texts(a, i, r1) == fingerprint::texts(b, i, r2),
    ensures
        forall|k: int| i <= k < a.len() ==> (#[trigger] a[k])@ == b[k]@,
        r1 == r2,
    decreases a.len() - i,
{
    if i < a.len() {
        lemma_chars(
            a[i]@,
            fingerprint::texts(a, i + 1, r1),
            b[i]@,
            fingerprint::texts(b, i + 1, r2),
        );
        lemma_texts(a, r1, b, r2, i + 1);
    }
}

proof fn lemma_list(a: Vec<String>, r1: Seq<u64>, b: Vec<String>, r2: Seq<u64>)
    requires
        list_fits(a@),
        list_fits(b@),
        fingerprint::text_list(a@, r1) == fingerprint::text_list(b@, r2),
    ensures
        same_texts(a@, b@),
        r1 == r2,
{
    assert(a.len() == a@.len() && b.len() == b@.len());
    lemma_word(
        a@.len() as u64,
        fingerprint::texts(a@, 0, r1),
        b@.len() as u64,
        fingerprint::texts(b@, 0, r2),
    );
    lemma_texts(a@, r1, b@, r2, 0);
    assert(text::views(a@) =~= text::views(b@));
}

proof fn lemma_unit(a: UnitDef, r1: Seq<u64>, b: UnitDef, r2: Seq<u64>)
    requires
        unit_fits(a),
        unit_fits(b),
        fingerprint::unit_words(a, r1) == fingerprint::unit_words(b, r2),
    ensures
        same_unit(a, b),
        r1 == r2,
{
    let x19 = fingerprint::flag(a.builds, r1);
    let y19 = fingerprint::flag(b.builds, r2);
    let x18 = fingerprint::flag(a.gathers, x19);
    let y18 = fingerprint::flag(b.gathers, y19);
    let x17 = fingerprint::opt_chars(fingerprint::opt_view(a.nemesis), x18);
    let y17 = fingerprint::opt_chars(fingerprint::opt_view(b.nemesis), y18);
    let x16 = fingerprint::word(a.armor as u64, x17);
    let y16 = fingerprint::word(b.armor as u64, y17);
    let x15 = fingerprint::word(a.defense as u64, x16);
    let y15 = fingerprint::word(b.defense as u64, y16);
    let x14 = fingerprint::word(a.offense as u64, x15);
    let y14 = fingerprint::word(b.offense as u64, y15);
    let x13 = fingerprint::word(a.speed as u64, x14);
    let y13 = fingerprint::word(b.speed as u64, y14);
    let x12 = fingerprint::word(a.mvp_attack_range.bits as u64, x13);
    let y12 = fingerprint::word(b.mvp_attack_range.bits as u64, y13);
    let x11 = fingerprint::word(a.mvp_attack_ticks as u64, x12);
    let y11 = fingerprint::word(b.mvp_attack_ticks as u64, y12);
    let x10 = fingerprint::word(a.mvp_gather_ticks as u64, x11);
    let y10 = fingerprint::word(b.mvp_gather_ticks as u64, y11);
    let x9 = fingerprint::word(a.mvp_carry_capacity as u64, x10);
    let y9 = fingerprint::word(b.mvp_carry_capacity as u64, y10);
    let x8 = fingerprint::word(a.mvp_train_ticks as u64, x9);
    let y8 = fingerprint::word(b.mvp_train_ticks as u64, y9);
    let x7 = fingerprint::word(a.mvp_alloy_cost as u64, x8);
    let y7 = fingerprint::word(b.mvp_alloy_cost as u64, y8);
    let x6 = fingerprint::word(fingerprint::kind_word(a.mvp_kind), x7);
    let y6 = fingerprint::word(fingerprint::kind_word(b.mvp_kind), y7);
    let x5 = fingerprint::word(a.cost.amount as u64, x6);
    let y5 = fingerprint::word(b.cost.amount as u64, y6);
    let x4 = fingerprint::chars(a.cost.resource@, x5);
    let y4 = fingerprint::chars(b.cost.resource@, y5);
    let x3 = fingerprint::opt_chars(fingerprint::opt_view(a.barracks), x4);
    let y3 = fingerprint::opt_chars(fingerprint::opt_view(b.barracks), y4);
    let x2 = fingerprint::opt_chars(fingerprint::opt_view(a.source), x3);
    let y2 = fingerprint::opt_chars(fingerprint::opt_view(b.source), y3);
    let x1 = fingerprint::chars(a.name@, x2);
    let y1 = fingerprint::chars(b.name@, y2);
    lemma_chars(a.id@, x1, b.id@, y1);
    lemma_chars(a.name@, x2, b.name@, y2);
    lemma_opt(a.source, x3, b.source, y3);
    lemma_opt(a.barracks, x4, b.barracks, y4);
    lemma_chars(a.cost.resource@, x5, b.cost.resource@, y5);
    lemma_word(a.cost.amount as u64, x6, b.cost.amount as u64, y6);
    lemma_word(fingerprint::kind_word(a.mvp_kind), x7, fingerprint::kind_word(b.mvp_kind), y7);
    lemma_word(a.mvp_alloy_cost as u64, x8, b.mvp_alloy_cost as u64, y8);
    lemma_word(a.mvp_train_ticks as u64, x9, b.mvp_train_ticks as u64, y9);
    lemma_word(a.mvp_carry_capacity as u64, x10, b.mvp_carry_capacity as u64, y10);
    lemma_word(a.mvp_gather_ticks as u64, x11, b.mvp_gather_ticks as u64, y11);
    lemma_word(a.mvp_attack_ticks as u64, x12, b.mvp_attack_ticks as u64, y12);
    lemma_word(a.mvp_attack_range.bits as u64, x13, b.mvp_attack_range.bits as u64, y13);
    lemma_word(a.speed as u64, x14, b.speed as u64, y14);
    lemma_word(a.offense as u64, x15, b.offense as u64, y15);
    lemma_word(a.defense as u64, x16, b.defense as u64, y16);
    lemma_word(a.armor as u64, x17, b.armor as u64, y17);
    lemma_opt(a.nemesis, x18, b.nemesis, y18);
    lemma_flag(a.gathers, x19, b.gathers, y19);
    lemma_flag(a.builds, r1, b.builds, r2);
}

proof fn lemma_building(a: BuildingDef, r1: Seq<u64>, b: BuildingDef, r2: Seq<u64>)
    requires
        building_fits(a),
        building_fits(b),
        fingerprint::building_words(a, r1) == fingerprint::building_words(b, r2),
    ensures
        same_building(a, b),
        r1 == r2,
{
    let x7 = fingerprint::word(a.mvp_armor as u64, r1);
    let y7 = fingerprint::word(b.mvp_armor as u64, r2);
    let x6 = fingerprint::word(a.mvp_defense as u64, x7);
    let y6 = fingerprint::word(b.mvp_defense as u64, y7);
    let x5 = fingerprint::flag(a.victory, x6);
    let y5 = fingerprint::flag(b.victory, y6);
    let x4 = fingerprint::flag(a.dropoff, x5);
    let y4 = fingerprint::flag(b.dropoff, y5);
    let x3 = fingerprint::text_list(a.produces@, x4);
    let y3 = fingerprint::text_list(b.produces@, y4);
    let x2 = fingerprint::word(a.alloy_cost as u64, x3);
    let y2 = fingerprint::word(b.alloy_cost as u64, y3);
    let x1 = fingerprint::chars(a.name@, x2);
    let y1 = fingerprint::chars(b.name@, y2);
    lemma_chars(a.id@, x1, b.id@, y1);
    lemma_chars(a.name@, x2, b.name@, y2);
    lemma_word(a.alloy_cost as u64, x3, b.alloy_cost as u64, y3);
    lemma_list(a.produces, x4, b.produces, y4);
    lemma_flag(a.dropoff, x5, b.dropoff, y5);
    lemma_flag(a.victory, x6, b.victory, y6);
    lemma_word(a.mvp_defense as u64, x7, b.mvp_defense as u64, y7);
    lemma_word(a.mvp_armor as u64, r1, b.mvp_armor as u64, r2);
}

proof fn lemma_combat(a: CombatDef, r1: Seq<u64>, b: CombatDef, r2: Seq<u64>)
    requires
        fingerprint::combat_words(a, r1) == fingerprint::combat_words(b, r2),
    ensures
        a == b,
        r1 == r2,
{
    let x7 = fingerprint::word(a.building_hp_per_defense as u64, r1);
    let y7 = fingerprint::word(b.building_hp_per_defense as u64, r2);
    let x6 = fingerprint::word(a.max_stat as u64, x7);
    let y6 = fingerprint::word(b.max_stat as u64, y7);
    let x5 = fingerprint::word(a.pursue_range.bits as u64, x6);
    let y5 = fingerprint::word(b.pursue_range.bits as u64, y6);
    let x4 = fingerprint::word(a.engage_range.bits as u64, x5);
    let y4 = fingerprint::word(b.engage_range.bits as u64, y5);
    let x3 = fingerprint::word(a.speed_per_point.bits as u64, x4);
    let y3 = fingerprint::word(b.speed_per_point.bits as u64, y4);
    let x2 = fingerprint::word(a.mitigation_per_armor as u64, x3);
    let y2 = fingerprint::word(b.mitigation_per_armor as u64, y3);
    let x1 = fingerprint::word(a.damage_per_offense as u64, x2);
    let y1 = fingerprint::word(b.damage_per_offense as u64, y2);
    lemma_word(a.hp_per_defense as u64, x1, b.hp_per_defense as u64, y1);
    lemma_word(a.damage_per_offense as u64, x2, b.damage_per_offense as u64, y2);
    lemma_word(a.mitigation_per_armor as u64, x3, b.mitigation_per_armor as u64, y3);
    lemma_word(a.speed_per_point.bits as u64, x4, b.speed_per_point.bits as u64, y4);
    lemma_word(a.engage_range.bits as u64, x5, b.engage_range.bits as u64, y5);
    lemma_word(a.pursue_range.bits as u64, x6, b.pursue_range.bits as u64, y6);
    lemma_word(a.max_stat as u64, x7, b.max_stat as u64, y7);
    lemma_word(a.building_hp_per_defense as u64, r1, b.building_hp_per_defense as u64, r2);
}

proof fn lemma_nemesis(a: NemesisBonus, r1: Seq<u64>, b: NemesisBonus, r2: Seq<u64>)
    requires
        fingerprint::nemesis_words(a, r1) == fingerprint::nemesis_words(b, r2),
    ensures
        a == b,
        r1 == r2,
{
    let x1 = fingerprint::flag(a.ignore_armor, r1);
    let y1 = fingerprint::flag(b.ignore_armor, r2);
    lemma_word(a.damage_mult.bits as u64, x1, b.damage_mult.bits as u64, y1);
    lemma_flag(a.ignore_armor, r1, b.ignore_armor, r2);
}

proof fn lemma_units(a: Seq<UnitDef>, r1: Seq<u64>, b: Seq<UnitDef>, r2: Seq<u64>, i: int)
    requires
        a.len() == b.len(),
        forall|k: int| 0 <= k < a.len() ==> unit_fits(#[trigger] a[k]),
        forall|k: int| 0 <= k < b.len() ==> unit_fits(#[trigger] b[k]),
        0 <= i <= a.len(),
        fingerprint::units_words(a, i, r1) == fingerprint::units_words(b, i, r2),
    ensures
        forall|k: int| i <= k < a.len() ==> same_unit(#[trigger] a[k], b[k]),
        r1 == r2,
    decreases a.len() - i,
{
    if i < a.len() {
        let x = fingerprint::units_words(a, i + 1, r1);
        let y = fingerprint::units_words(b, i + 1, r2);
        lemma_unit(a[i], x, b[i], y);
        lemma_units(a, r1, b, r2, i + 1);
    }
}

proof fn lemma_buildings(a: Seq<BuildingDef>, r1: Seq<u64>, b: Seq<BuildingDef>, r2: Seq<u64>, i: int)
    requires
        a.len() == b.len(),
        forall|k: int| 0 <= k < a.len() ==> building_fits(#[trigger] a[k]),
        forall|k: int| 0 <= k < b.len() ==> building_fits(#[trigger] b[k]),
        0 <= i <= a.len(),
        fingerprint::buildings_words(a, i, r1) == fingerprint::buildings_words(b, i, r2),
    ensures
        forall|k: int| i <= k < a.len() ==> same_building(#[trigger] a[k], b[k]),
        r1 == r2,
    decreases a.len() - i,
{
    if i < a.len() {
        let x = fingerprint::buildings_words(a, i + 1, r1);
        let y = fingerprint::buildings_words(b, i + 1, r2);
        lemma_building(a[i], x, b[i], y);
        lemma_buildings(a, r1, b, r2, i + 1);
    }
}

proof fn lemma_army(a: Seq<ArmyItem>, r1: Seq<u64>, b: Seq<ArmyItem>, r2: Seq<u64>, i: int)
    requires
        a.len() == b.len(),
        forall|k: int| 0 <= k < a.len() ==> fits((#[trigger] a[k]).unit@),
        forall|k: int| 0 <= k < b.len() ==> fits((#[trigger] b[k]).unit@),
        0 <= i <= a.len(),
        fingerprint::army_words(a, i, r1) == fingerprint::army_words(b, i, r2),
    ensures
        forall|k: int| i <= k < a.len() ==> same_item(#[trigger] a[k], b[k]),
        r1 == r2,
    decreases a.len() - i,
{
    if i < a.len() {
        let x = fingerprint::army_words(a, i + 1, r1);
        let y = fingerprint::army_words(b, i + 1, r2);
        let x2 = fingerprint::word(a[i].count as u64, x);
        let y2 = fingerprint::word(b[i].count as u64, y);
        lemma_chars(a[i].unit@, x2, b[i].unit@, y2);
        lemma_word(a[i].count as u64, x, b[i].count as u64, y);
        lemma_army(a, r1, b, r2, i + 1);
    }
}

proof fn lemma_openings(a: Seq<Opening>, r1: Seq<u64>, b: Seq<Opening>, r2: Seq<u64>, i: int)
    requires
        a.len() == b.len(),
        forall|k: int| 0 <= k < a.len() ==> fits((#[trigger] a[k]).building@),
        forall|k: int| 0 <= k < b.len() ==> fits((#[trigger] b[k]).building@),
        0 <= i <= a.len(),
        fingerprint::openings_words(a, i, r1) == fingerprint::openings_words(b, i, r2),
    ensures
        forall|k: int| i <= k < a.len() ==> same_opening(#[trigger] a[k], b[k]),
        r1 == r2,
    decreases a.len() - i,
{
    if i < a.len() {
        let x = fingerprint::openings_words(a, i + 1, r1);
        let y = fingerprint::openings_words(b, i + 1, r2);
        let x2 = fingerprint::word(a[i].offset.bits as u64, x);
        let y2 = fingerprint::word(b[i].offset.bits as u64, y);
        let x3 = fingerprint::word(a[i].at_tick as u64, x2);
        let y3 = fingerprint::word(b[i].at_tick as u64, y2);
        lemma_chars(a[i].building@, x3, b[i].building@, y3);
        lemma_word(a[i].at_tick as u64, x2, b[i].at_tick as u64, y2);
        lemma_word(a[i].offset.bits as u64, x, b[i].offset.bits as u64, y);
        lemma_openings(a, r1, b, r2, i + 1);
    }
}

proof fn lemma_ai(a: AiDef, r1: Seq<u64>, b: AiDef, r2: Seq<u64>)
    requires
        fits(a.barracks@),
        army_fits(a.army@),
        fits(b.barracks@),
        army_fits(b.army@),
        fingerprint::ai_words(a, r1) == fingerprint::ai_words(b, r2),
    ensures
        same_ai(a, b),
        r1 == r2,
{
    assert(a.army.len() == a.army@.len() && b.army.len() == b.army@.len());
    let x9 = fingerprint::army_words(a.army@, 0, r1);
    let y9 = fingerprint::army_words(b.army@, 0, r2);
    let x8 = fingerprint::word(a.army@.len() as u64, x9);
    let y8 = fingerprint::word(b.army@.len() as u64, y9);
    let x7 = fingerprint::word(a.attack_spread.bits as u64, x8);
    let y7 = fingerprint::word(b.attack_spread.bits as u64, y8);
    let x6 = fingerprint::word(a.attack_interval_ticks as u64, x7);
    let y6 = fingerprint::word(b.attack_interval_ticks as u64, y7);
    let x5 = fingerprint::word(a.attack_at_army as u64, x6);
    let y5 = fingerprint::word(b.attack_at_army as u64, y6);
    let x4 = fingerprint::word(a.barracks_offset.bits as u64, x5);
    let y4 = fingerprint::word(b.barracks_offset.bits as u64, y5);
    let x3 = fingerprint::word(a.barracks_at_tick as u64, x4);
    let y3 = fingerprint::word(b.barracks_at_tick as u64, y4);
    let x2 = fingerprint::chars(a.barracks@, x3);
    let y2 = fingerprint::chars(b.barracks@, y3);
    let x1 = fingerprint::word(a.worker_target as u64, x2);
    let y1 = fingerprint::word(b.worker_target as u64, y2);
    lemma_word(a.think_interval_ticks as u64, x1, b.think_interval_ticks as u64, y1);
    lemma_word(a.worker_target as u64, x2, b.worker_target as u64, y2);
    lemma_chars(a.barracks@, x3, b.barracks@, y3);
    lemma_word(a.barracks_at_tick as u64, x4, b.barracks_at_tick as u64, y4);
    lemma_word(a.barracks_offset.bits as u64, x5, b.barracks_offset.bits as u64, y5);
    lemma_word(a.attack_at_army as u64, x6, b.attack_at_army as u64, y6);
    lemma_word(a.attack_interval_ticks as u64, x7, b.attack_interval_ticks as u64, y7);
    lemma_word(a.attack_spread.bits as u64, x8, b.attack_spread.bits as u64, y8);
    lemma_word(a.army@.len() as u64, x9, b.army@.len() as u64, y9);
    lemma_army(a.army@, r1, b.army@, r2, 0);
}

proof fn lemma_resource(a: ResourceDef, r1: Seq<u64>, b: ResourceDef, r2: Seq<u64>)
    requires
        resource_fits(a),
        resource_fits(b),
        fingerprint::resource_words(a, r1) == fingerprint::resource_words(b, r2),
    ensures
        same_resource(a, b),
        r1 == r2,
{
    let x5 = fingerprint::text_list(a.powers@, r1);
    let y5 = fingerprint::text_list(b.powers@, r2);
    let x4 = fingerprint::word(fingerprint::acquisition_word(a.acquisition), x5);
    let y4 = fingerprint::word(fingerprint::acquisition_word(b.acquisition), y5);
    let x3 = fingerprint::chars(a.building@, x4);
    let y3 = fingerprint::chars(b.building@, y4);
    let x2 = fingerprint::chars(a.domain@, x3);
    let y2 = fingerprint::chars(b.domain@, y3);
    let x1 = fingerprint::chars(a.name@, x2);
    let y1 = fingerprint::chars(b.name@, y2);
    lemma_chars(a.id@, x1, b.id@, y1);
    lemma_chars(a.name@, x2, b.name@, y2);
    lemma_chars(a.domain@, x3, b.domain@, y3);
    lemma_chars(a.building@, x4, b.building@, y4);
    lemma_word(fingerprint::acquisition_word(a.acquisition), x5, fingerprint::acquisition_word(b.acquisition), y5);
    lemma_list(a.powers, r1, b.powers, r2);
}

proof fn lemma_resources(a: Seq<ResourceDef>, r1: Seq<u64>, b: Seq<ResourceDef>, r2: Seq<u64>, i: int)
    requires
        a.len() == b.len(),
        forall|k: int| 0 <= k < a.len() ==> resource_fits(#[trigger] a[k]),
        forall|k: int| 0 <= k < b.len() ==> resource_fits(#[trigger] b[k]),
        0 <= i <= a.len(),
        fingerprint::resources_words(a, i, r1) == fingerprint::resources_words(b, i, r2),
    ensures
        forall|k: int| i <= k < a.len() ==> same_resource(#[trigger] a[k], b[k]),
        r1 == r2,
    decreases a.len() - i,
{
    if i < a.len() {
        let x = fingerprint::resources_words(a, i + 1, r1);
        let y = fingerprint::resources_words(b, i + 1, r2);
        lemma_resource(a[i], x, b[i], y);
        lemma_resources(a, r1, b, r2, i + 1);
    }
}

proof fn lemma_economy(a: EconomyDef, r1: Seq<u64>, b: EconomyDef, r2: Seq<u64>)
    requires
        fits(a.currency@),
        fits(b.currency@),
        fingerprint::economy_words(a, r1) == fingerprint::economy_words(b, r2),
    ensures
        same_economy(a, b),
        r1 == r2,
{
    let x3 = fingerprint::word(a.deposit_range.bits as u64, r1);
    let y3 = fingerprint::word(b.deposit_range.bits as u64, r2);
    let x2 = fingerprint::word(a.gather_range.bits as u64, x3);
    let y2 = fingerprint::word(b.gather_range.bits as u64, y3);
    let x1 = fingerprint::word(a.starting_alloy as u64, x2);
    let y1 = fingerprint::word(b.starting_alloy as u64, y2);
    lemma_chars(a.currency@, x1, b.currency@, y1);
    lemma_word(a.starting_alloy as u64, x2, b.starting_alloy as u64, y2);
    lemma_word(a.gather_range.bits as u64, x3, b.gather_range.bits as u64, y3);
    lemma_word(a.deposit_range.bits as u64, r1, b.deposit_range.bits as u64, r2);
}

proof fn lemma_strategy(a: StrategyDef, r1: Seq<u64>, b: StrategyDef, r2: Seq<u64>)
    requires
        strategy_fits(a),
        strategy_fits(b),
        fingerprint::strategy_words(a, r1) == fingerprint::strategy_words(b, r2),
    ensures
        same_strategy(a, b),
        r1 == r2,
{
    assert(a.barracks.len() == a.barracks@.len() && b.barracks.len() == b.barracks@.len());
    assert(a.army.len() == a.army@.len() && b.army.len() == b.army@.len());
    let x9 = fingerprint::army_words(a.army@, 0, r1);
    let y9 = fingerprint::army_words(b.army@, 0, r2);
    let x8 = fingerprint::word(a.army@.len() as u64, x9);
    let y8 = fingerprint::word(b.army@.len() as u64, y9);
    let x7 = fingerprint::openings_words(a.barracks@, 0, x8);
    let y7 = fingerprint::openings_words(b.barracks@, 0, y8);
    let x6 = fingerprint::word(a.barracks@.len() as u64, x7);
    let y6 = fingerprint::word(b.barracks@.len() as u64, y7);
    let x5 = fingerprint::word(a.attack_spread.bits as u64, x6);
    let y5 = fingerprint::word(b.attack_spread.bits as u64, y6);
    let x4 = fingerprint::word(a.attack_interval_ticks as u64, x5);
    let y4 = fingerprint::word(b.attack_interval_ticks as u64, y5);
    let x3 = fingerprint::word(a.attack_at_army as u64, x4);
    let y3 = fingerprint::word(b.attack_at_army as u64, y4);
    let x2 = fingerprint::word(a.worker_target as u64, x3);
    let y2 = fingerprint::word(b.worker_target as u64, y3);
    let x1 = fingerprint::word(a.think_interval_ticks as u64, x2);
    let y1 = fingerprint::word(b.think_interval_ticks as u64, y2);
    lemma_chars(a.id@, x1, b.id@, y1);
    lemma_word(a.think_interval_ticks as u64, x2, b.think_interval_ticks as u64, y2);
    lemma_word(a.worker_target as u64, x3, b.worker_target as u64, y3);
    lemma_word(a.attack_at_army as u64, x4, b.attack_at_army as u64, y4);
    lemma_word(a.attack_interval_ticks as u64, x5, b.attack_interval_ticks as u64, y5);
    lemma_word(a.attack_spread.bits as u64, x6, b.attack_spread.bits as u64, y6);
    lemma_word(a.barracks@.len() as u64, x7, b.barracks@.len() as u64, y7);
    lemma_openings(a.barracks@, x8, b.barracks@, y8, 0);
    lemma_word(a.army@.len() as u64, x9, b.army@.len() as u64, y9);
    lemma_army(a.army@, r1, b.army@, r2, 0);
}

proof fn lemma_strategies(a: Seq<StrategyDef>, r1: Seq<u64>, b: Seq<StrategyDef>, r2: Seq<u64>, i: int)
    requires
        a.len() == b.len(),
        forall|k: int| 0 <= k < a.len() ==> strategy_fits(#[trigger] a[k]),
        forall|k: int| 0 <= k < b.len() ==> strategy_fits(#[trigger] b[k]),
        0 <= i <= a.len(),
        fingerprint::strategies_words(a, i, r1) == fingerprint::strategies_words(b, i, r2),
    ensures
        forall|k: int| i <= k < a.len() ==> same_strategy(#[trigger] a[k], b[k]),
        r1 == r2,
    decreases a.len() - i,
{
    if i < a.len() {
        let x = fingerprint::strategies_words(a, i + 1, r1);
        let y = fingerprint::strategies_words(b, i + 1, r2);
        lemma_strategy(a[i], x, b[i], y);
        lemma_strategies(a, r1, b, r2, i + 1);
    }
}

/// Two content sets are written as one stream of words only if every field of
/// every definition is the same. The lengths in front of texts and lists and
/// the tag before each section see to it: nothing can move from one text, list
/// or section to another without the stream showing it.
pub proof fn stream_is_faithful(a: Content, b: Content)
    requires
        content_fits(a),
        content_fits(b),
        fingerprint::stream(a) == fingerprint::stream(b),
    ensures
        same_content(a, b),
{
    lemma_stream_head(a, b);
    lemma_stream_middle(a, b);
    lemma_stream_resources(a, b);
    lemma_stream_tail(a, b);
}

/// The same text in front leaves the same rest.
proof fn lemma_tag(t: Seq<char>, r1: Seq<u64>, r2: Seq<u64>)
    requires
        fingerprint::chars(t, r1) == fingerprint::chars(t, r2),
    ensures
        r1 == r2,
{
    reveal(fingerprint::chars);
    let bytes = encode_utf8(t);
    let ws = bytes.map_values(|b: u8| b as u64);
    lemma_word(bytes.len() as u64, ws + r1, bytes.len() as u64, ws + r2);
    assert((ws + r1).skip(ws.len() as int) =~= r1);
    assert((ws + r2).skip(ws.len() as int) =~= r2);
}

proof fn lemma_stream_head(a: Content, b: Content)
    requires
        content_fits(a),
        content_fits(b),
        fingerprint::stream(a) == fingerprint::stream(b),
    ensures
        a.units@.len() == b.units@.len(),
        forall|i: int| 0 <= i < a.units@.len() ==> same_unit(#[trigger] a.units@[i], b.units@[i]),
        a.buildings@.len() == b.buildings@.len(),
        forall|i: int|
            0 <= i < a.buildings@.len() ==> same_building(#[trigger] a.buildings@[i], b.buildings@[i]),
        fingerprint::combat_section(a) == fingerprint::combat_section(b),
{
    assert(a.buildings.len() == a.buildings@.len() && b.buildings.len() == b.buildings@.len());
    assert(a.units.len() == a.units@.len() && b.units.len() == b.units@.len());
    let x6 = fingerprint::combat_section(a);
    let y6 = fingerprint::combat_section(b);
    let x5 = fingerprint::buildings_words(a.buildings@, 0, x6);
    let y5 = fingerprint::buildings_words(b.buildings@, 0, y6);
    let x4 = fingerprint::word(a.buildings@.len() as u64, x5);
    let y4 = fingerprint::word(b.buildings@.len() as u64, y5);
    let x3 = fingerprint::chars("buildings"@, x4);
    let y3 = fingerprint::chars("buildings"@, y4);
    let x2 = fingerprint::units_words(a.units@, 0, x3);
    let y2 = fingerprint::units_words(b.units@, 0, y3);
    let x1 = fingerprint::word(a.units@.len() as u64, x2);
    let y1 = fingerprint::word(b.units@.len() as u64, y2);
    lemma_tag("units"@, x1, y1);
    lemma_word(a.units@.len() as u64, x2, b.units@.len() as u64, y2);
    lemma_units(a.units@, x3, b.units@, y3, 0);
    lemma_tag("buildings"@, x4, y4);
    lemma_word(a.buildings@.len() as u64, x5, b.buildings@.len() as u64, y5);
    lemma_buildings(a.buildings@, x6, b.buildings@, y6, 0);
}

proof fn lemma_stream_middle(a: Content, b: Content)
    requires
        content_fits(a),
        content_fits(b),
        fingerprint::combat_section(a) == fingerprint::combat_section(b),
    ensures
        a.combat == b.combat,
        a.nemesis_bonus == b.nemesis_bonus,
        same_ai(a.ai, b.ai),
        fingerprint::resources_section(a) == fingerprint::resources_section(b),
{
    let x6 = fingerprint::resources_section(a);
    let y6 = fingerprint::resources_section(b);
    let x5 = fingerprint::ai_words(a.ai, x6);
    let y5 = fingerprint::ai_words(b.ai, y6);
    let x4 = fingerprint::chars("ai"@, x5);
    let y4 = fingerprint::chars("ai"@, y5);
    let x3 = fingerprint::nemesis_words(a.nemesis_bonus, x4);
    let y3 = fingerprint::nemesis_words(b.nemesis_bonus, y4);
    let x2 = fingerprint::chars("nemesis"@, x3);
    let y2 = fingerprint::chars("nemesis"@, y3);
    let x1 = fingerprint::combat_words(a.combat, x2);
    let y1 = fingerprint::combat_words(b.combat, y2);
    lemma_tag("combat"@, x1, y1);
    lemma_combat(a.combat, x2, b.combat, y2);
    lemma_tag("nemesis"@, x3, y3);
    lemma_nemesis(a.nemesis_bonus, x4, b.nemesis_bonus, y4);
    lemma_tag("ai"@, x5, y5);
    lemma_ai(a.ai, x6, b.ai, y6);
}

proof fn lemma_stream_resources(a: Content, b: Content)
    requires
        content_fits(a),
        content_fits(b),
        fingerprint::resources_section(a) == fingerprint::resources_section(b),
    ensures
        a.resources@.len() == b.resources@.len(),
        forall|i: int|
            0 <= i < a.resources@.len() ==> same_resource(#[trigger] a.resources@[i], b.resources@[i]),
        same_texts(a.mvp_active@, b.mvp_active@),
        fingerprint::economy_section(a) == fingerprint::economy_section(b),
{
    assert(a.resources.len() == a.resources@.len() && b.resources.len() == b.resources@.len());
    let x5 = fingerprint::economy_section(a);
    let y5 = fingerprint::economy_section(b);
    let x4 = fingerprint::text_list(a.mvp_active@, x5);
    let y4 = fingerprint::text_list(b.mvp_active@, y5);
    let x3 = fingerprint::chars("mvp_active"@, x4);
    let y3 = fingerprint::chars("mvp_active"@, y4);
    let x2 = fingerprint::resources_words(a.resources@, 0, x3);
    let y2 = fingerprint::resources_words(b.resources@, 0, y3);
    let x1 = fingerprint::word(a.resources@.len() as u64, x2);
    let y1 = fingerprint::word(b.resources@.len() as u64, y2);
    lemma_tag("resources"@, x1, y1);
    lemma_word(a.resources@.len() as u64, x2, b.resources@.len() as u64, y2);
    lemma_resources(a.resources@, x3, b.resources@, y3, 0);
    lemma_tag("mvp_active"@, x4, y4);
    lemma_list(a.mvp_active, x5, b.mvp_active, y5);
}

proof fn lemma_stream_tail(a: Content, b: Content)
    requires
        content_fits(a),
        content_fits(b),
        fingerprint::economy_section(a) == fingerprint::economy_section(b),
    ensures
        same_economy(a.economy, b.economy),
        a.strategies@.len() == b.strategies@.len(),
        forall|i: int|
            0 <= i < a.strategies@.len() ==> same_strategy(#[trigger] a.strategies@[i], b.strategies@[i]),
        a.default_strategy@ == b.default_strategy@,
{
    assert(a.strategies.len() == a.strategies@.len() && b.strategies.len() == b.strategies@.len());
    let x2 = fingerprint::strategies_section(a);
    let y2 = fingerprint::strategies_section(b);
    let x1 = fingerprint::economy_words(a.economy, x2);
    let y1 = fingerprint::economy_words(b.economy, y2);
    lemma_tag("economy"@, x1, y1);
    lemma_economy(a.economy, x2, b.economy, y2);
    lemma_strategies_section(a, b);
}

/// The scripts, where there are any.
proof fn lemma_strategies_section(a: Content, b: Content)
    requires
        content_fits(a),
        content_fits(b),
        fingerprint::strategies_section(a) == fingerprint::strategies_section(b),
    ensures
        a.strategies@.len() == b.strategies@.len(),
        forall|i: int|
            0 <= i < a.strategies@.len() ==> same_strategy(#[trigger] a.strategies@[i], b.strategies@[i]),
        a.default_strategy@ == b.default_strategy@,
{
    assert(a.strategies.len() == a.strategies@.len() && b.strategies.len() == b.strategies@.len());
    let x6 = Seq::<u64>::empty();
    let y6 = Seq::<u64>::empty();
    let x5 = fingerprint::chars(a.default_strategy@, x6);
    let y5 = fingerprint::chars(b.default_strategy@, y6);
    let x4 = fingerprint::strategies_words(a.strategies@, 0, x5);
    let y4 = fingerprint::strategies_words(b.strategies@, 0, y5);
    let x3 = fingerprint::word(a.strategies@.len() as u64, x4);
    let y3 = fingerprint::word(b.strategies@.len() as u64, y4);
    lemma_tag_shows("strategies"@, x3);
    lemma_tag_shows("strategies"@, y3);
    if a.scripted() && b.scripted() {
        lemma_tag("strategies"@, x3, y3);
        lemma_word(a.strategies@.len() as u64, x4, b.strategies@.len() as u64, y4);
        lemma_strategies(a.strategies@, x5, b.strategies@, y5, 0);
        lemma_chars(a.default_strategy@, x6, b.default_strategy@, y6);
    } else {
        assert(!a.scripted() && !b.scripted());
        assert(a.default_strategy@ =~= b.default_strategy@);
    }
}

/// A text in front is there to be seen.
proof fn lemma_tag_shows(t: Seq<char>, r: Seq<u64>)
    ensures
        fingerprint::chars(t, r).len() > 0,
{
    reveal(fingerprint::chars);
    reveal(fingerprint::word);
}

} // verus!
