//! What one changed value does to the fingerprint of a content set.

use vstd::prelude::*;
use vstd::utf8::encode_utf8;

use crate::sim::content::fingerprint;
use crate::sim::content::fingerprint::{chars, fnv, fnv_step, stream, word};
use crate::sim::content::laws::same_texts;
use crate::sim::content::{
    AiDef, ArmyItem, BuildingDef, CombatDef, Content, ContentFingerprint, EconomyDef, NemesisBonus,
    Opening, ResourceDef, StrategyDef, UnitDef,
};
use crate::sim::spatial::wrap_mul;
use crate::text;

verus! {

// ---- the hash of a stream -----------------------------------------------------

/// The multiplier of the hash is odd, so that multiplying by it loses nothing.
proof fn lemma_multiply(a: u64, b: u64)
    requires
        wrap_mul(a, 0x0000_0100_0000_01b3) == wrap_mul(b, 0x0000_0100_0000_01b3),
    ensures
        a == b,
{
    let p = 0x0000_0100_0000_01b3int;
    let m = 0x1_0000_0000_0000_0000int;
    // p * inverse == 1 + turns * m
    let inverse = 0xce965057aff6957bint;
    let turns = 887285111055int;
    assert(p * inverse == 1 + turns * m);
    let (x, y) = (a as int * p, b as int * p);
    vstd::arithmetic::div_mod::lemma_fundamental_div_mod(x, m);
    vstd::arithmetic::div_mod::lemma_fundamental_div_mod(y, m);
    let d = a - b;
    let t = x / m - y / m;
    let s = t * inverse - d * turns;
    assert(d == s * m) by (nonlinear_arith)
        requires
            d * p == t * m,
            p * inverse == 1 + turns * m,
            s == t * inverse - d * turns,
    {
        assert(d * p * inverse == d * (p * inverse));
        assert(d * (1 + turns * m) == d + d * turns * m);
        assert(t * m * inverse == t * inverse * m);
    }
    assert(d == 0) by (nonlinear_arith)
        requires
            d == s * m,
            -m < d < m,
            m > 0,
    ;
}

/// A step of the hash tells two states from each other, and two words.
pub proof fn a_step_loses_nothing(h1: u64, v1: u64, h2: u64, v2: u64)
    requires
        fnv_step(h1, v1) == fnv_step(h2, v2),
    ensures
        h1 == h2 <==> v1 == v2,
{
    lemma_multiply(h1 ^ v1, h2 ^ v2);
    assert(h1 ^ v1 == h2 ^ v2 ==> (h1 == h2 <==> v1 == v2)) by (bit_vector);
}

/// Two streams of one length that differ in one word have different hashes.
pub proof fn one_word_tells(a: Seq<u64>, b: Seq<u64>, k: int)
    requires
        a.len() == b.len(),
        0 <= k < a.len(),
        a[k] != b[k],
        forall|i: int| 0 <= i < a.len() && i != k ==> a[i] == b[i],
    ensures
        fnv(a) != fnv(b),
    decreases a.len(),
{
    let (x, y) = (a.drop_last(), b.drop_last());
    if k == a.len() - 1 {
        assert(x =~= y);
    } else {
        one_word_tells(x, y, k);
    }
    if fnv(a) == fnv(b) {
        a_step_loses_nothing(fnv(x), a.last(), fnv(y), b.last());
    }
}

// ---- in how many words two streams differ ---------------------------------------

/// One for two values that differ.
pub open spec fn ne<T>(a: T, b: T) -> nat {
    if a == b {
        0
    } else {
        1
    }
}

/// In how many places two streams differ.
pub open spec fn gap(a: Seq<u64>, b: Seq<u64>) -> nat
    decreases a.len(),
{
    if a.len() == 0 || b.len() == 0 {
        0
    } else {
        ne(a[0], b[0]) + gap(a.drop_first(), b.drop_first())
    }
}

broadcast proof fn lemma_gap_word(v: u64, r1: Seq<u64>, w: u64, r2: Seq<u64>)
    ensures
        #[trigger] gap(word(v, r1), word(w, r2)) == ne(v, w) + gap(r1, r2),
{
    reveal(word);
    assert(word(v, r1).drop_first() =~= r1);
    assert(word(w, r2).drop_first() =~= r2);
}

proof fn lemma_gap_front(p: Seq<u64>, r1: Seq<u64>, r2: Seq<u64>)
    ensures
        gap(p + r1, p + r2) == gap(r1, r2),
    decreases p.len(),
{
    if p.len() == 0 {
        assert(p + r1 =~= r1);
        assert(p + r2 =~= r2);
    } else {
        assert((p + r1).drop_first() =~= p.drop_first() + r1);
        assert((p + r2).drop_first() =~= p.drop_first() + r2);
        lemma_gap_front(p.drop_first(), r1, r2);
    }
}

broadcast proof fn lemma_gap_chars(s: Seq<char>, r1: Seq<u64>, r2: Seq<u64>)
    ensures
        #[trigger] gap(chars(s, r1), chars(s, r2)) == gap(r1, r2),
{
    reveal(chars);
    let bytes = encode_utf8(s);
    let ws = bytes.map_values(|b: u8| b as u64);
    lemma_gap_word(bytes.len() as u64, ws + r1, bytes.len() as u64, ws + r2);
    lemma_gap_front(ws, r1, r2);
}

broadcast proof fn lemma_word_len(v: u64, r: Seq<u64>)
    ensures
        #[trigger] word(v, r).len() == r.len() + 1,
{
    reveal(word);
}

broadcast proof fn lemma_chars_len(s: Seq<char>, r: Seq<u64>)
    ensures
        #[trigger] chars(s, r).len() == r.len() + 1 + encode_utf8(s).len(),
{
    reveal(word);
    reveal(chars);
}

broadcast group group_gap {
    lemma_gap_word,
    lemma_gap_chars,
    lemma_word_len,
    lemma_chars_len,
}

/// Two streams go on as `r1` and `r2` do, after as many words the one as the
/// other, `n` of them different.
spec fn adds(x: Seq<u64>, r1: Seq<u64>, y: Seq<u64>, r2: Seq<u64>, n: nat) -> bool {
    gap(x, y) == n + gap(r1, r2) && x.len() - r1.len() == y.len() - r2.len()
}

/// Streams of one length that differ nowhere are one stream.
proof fn lemma_no_gap(a: Seq<u64>, b: Seq<u64>)
    requires
        a.len() == b.len(),
        gap(a, b) == 0,
    ensures
        a == b,
    decreases a.len(),
{
    if a.len() > 0 {
        lemma_no_gap(a.drop_first(), b.drop_first());
        assert(a =~= seq![a[0]] + a.drop_first());
        assert(b =~= seq![b[0]] + b.drop_first());
    } else {
        assert(a =~= b);
    }
}

/// Where two streams differ that differ in one place.
proof fn lemma_one_gap(a: Seq<u64>, b: Seq<u64>) -> (k: int)
    requires
        a.len() == b.len(),
        gap(a, b) == 1,
    ensures
        0 <= k < a.len(),
        a[k] != b[k],
        forall|i: int| 0 <= i < a.len() && i != k ==> a[i] == b[i],
    decreases a.len(),
{
    let (x, y) = (a.drop_first(), b.drop_first());
    if a[0] != b[0] {
        lemma_no_gap(x, y);
        assert forall|i: int| 0 <= i < a.len() && i != 0 implies a[i] == b[i] by {
            assert(x[i - 1] == y[i - 1]);
        }
        0
    } else {
        let k = lemma_one_gap(x, y);
        assert forall|i: int| 0 <= i < a.len() && i != k + 1 implies a[i] == b[i] by {
            if i > 0 {
                assert(x[i - 1] == y[i - 1]);
            }
        }
        assert(a[k + 1] == x[k] && b[k + 1] == y[k]);
        k + 1
    }
}

// ---- in how many values two content sets differ ----------------------------------

/// The same texts.
pub open spec fn unit_reads_alike(a: UnitDef, b: UnitDef) -> bool {
    &&& a.id@ == b.id@
    &&& a.name@ == b.name@
    &&& a.cost.resource@ == b.cost.resource@
    &&& fingerprint::opt_view(a.source) == fingerprint::opt_view(b.source)
    &&& fingerprint::opt_view(a.barracks) == fingerprint::opt_view(b.barracks)
    &&& fingerprint::opt_view(a.nemesis) == fingerprint::opt_view(b.nemesis)
}

pub open spec fn stats_changes(a: UnitDef, b: UnitDef) -> nat {
    ne(a.mvp_alloy_cost, b.mvp_alloy_cost) + ne(a.mvp_train_ticks, b.mvp_train_ticks) + ne(
        a.mvp_carry_capacity,
        b.mvp_carry_capacity,
    ) + ne(a.mvp_gather_ticks, b.mvp_gather_ticks) + ne(
        a.mvp_attack_ticks,
        b.mvp_attack_ticks,
    ) + ne(a.mvp_attack_range, b.mvp_attack_range) + ne(a.speed, b.speed) + ne(
        a.offense,
        b.offense,
    ) + ne(a.defense, b.defense) + ne(a.armor, b.armor)
}

pub open spec fn unit_changes(a: UnitDef, b: UnitDef) -> nat {
    ne(a.cost.amount, b.cost.amount) + ne(a.mvp_kind, b.mvp_kind) + stats_changes(a, b) + ne(
        a.gathers,
        b.gathers,
    ) + ne(a.builds, b.builds)
}

/// The same texts.
pub open spec fn building_reads_alike(a: BuildingDef, b: BuildingDef) -> bool {
    &&& a.id@ == b.id@
    &&& a.name@ == b.name@
    &&& same_texts(a.produces@, b.produces@)
}

pub open spec fn building_changes(a: BuildingDef, b: BuildingDef) -> nat {
    ne(a.alloy_cost, b.alloy_cost) + ne(a.dropoff, b.dropoff) + ne(a.victory, b.victory) + ne(
        a.mvp_defense,
        b.mvp_defense,
    ) + ne(a.mvp_armor, b.mvp_armor)
}

/// The same texts.
pub open spec fn item_reads_alike(a: ArmyItem, b: ArmyItem) -> bool {
    &&& a.unit@ == b.unit@
}

pub open spec fn item_changes(a: ArmyItem, b: ArmyItem) -> nat {
    ne(a.count, b.count)
}

/// The same texts.
pub open spec fn opening_reads_alike(a: Opening, b: Opening) -> bool {
    &&& a.building@ == b.building@
}

pub open spec fn opening_changes(a: Opening, b: Opening) -> nat {
    ne(a.at_tick, b.at_tick) + ne(a.offset, b.offset)
}

/// The same texts.
pub open spec fn resource_reads_alike(a: ResourceDef, b: ResourceDef) -> bool {
    &&& a.id@ == b.id@
    &&& a.name@ == b.name@
    &&& a.domain@ == b.domain@
    &&& a.building@ == b.building@
    &&& same_texts(a.powers@, b.powers@)
}

pub open spec fn resource_changes(a: ResourceDef, b: ResourceDef) -> nat {
    ne(a.acquisition, b.acquisition)
}

/// The same texts.
pub open spec fn economy_reads_alike(a: EconomyDef, b: EconomyDef) -> bool {
    &&& a.currency@ == b.currency@
}

pub open spec fn economy_changes(a: EconomyDef, b: EconomyDef) -> nat {
    ne(a.starting_alloy, b.starting_alloy) + ne(a.gather_range, b.gather_range) + ne(
        a.deposit_range,
        b.deposit_range,
    )
}

pub open spec fn combat_changes(a: CombatDef, b: CombatDef) -> nat {
    ne(a.hp_per_defense, b.hp_per_defense) + ne(a.damage_per_offense, b.damage_per_offense) + ne(
        a.mitigation_per_armor,
        b.mitigation_per_armor,
    ) + ne(a.speed_per_point, b.speed_per_point) + ne(a.engage_range, b.engage_range) + ne(
        a.pursue_range,
        b.pursue_range,
    ) + ne(a.max_stat, b.max_stat) + ne(a.building_hp_per_defense, b.building_hp_per_defense)
}

pub open spec fn nemesis_changes(a: NemesisBonus, b: NemesisBonus) -> nat {
    ne(a.damage_mult, b.damage_mult) + ne(a.ignore_armor, b.ignore_armor)
}

pub open spec fn units_read_alike(a: Seq<UnitDef>, b: Seq<UnitDef>) -> bool {
    &&& a.len() == b.len()
    &&& forall|i: int| 0 <= i < a.len() ==> unit_reads_alike(#[trigger] a[i], b[i])
}

/// From position `i` on.
pub open spec fn units_changes(a: Seq<UnitDef>, b: Seq<UnitDef>, i: int) -> nat
    decreases a.len() - i,
{
    if i < 0 || i >= a.len() {
        0
    } else {
        unit_changes(a[i], b[i]) + units_changes(a, b, i + 1)
    }
}

pub open spec fn buildings_read_alike(a: Seq<BuildingDef>, b: Seq<BuildingDef>) -> bool {
    &&& a.len() == b.len()
    &&& forall|i: int| 0 <= i < a.len() ==> building_reads_alike(#[trigger] a[i], b[i])
}

/// From position `i` on.
pub open spec fn buildings_changes(a: Seq<BuildingDef>, b: Seq<BuildingDef>, i: int) -> nat
    decreases a.len() - i,
{
    if i < 0 || i >= a.len() {
        0
    } else {
        building_changes(a[i], b[i]) + buildings_changes(a, b, i + 1)
    }
}

pub open spec fn army_read_alike(a: Seq<ArmyItem>, b: Seq<ArmyItem>) -> bool {
    &&& a.len() == b.len()
    &&& forall|i: int| 0 <= i < a.len() ==> item_reads_alike(#[trigger] a[i], b[i])
}

/// From position `i` on.
pub open spec fn army_changes(a: Seq<ArmyItem>, b: Seq<ArmyItem>, i: int) -> nat
    decreases a.len() - i,
{
    if i < 0 || i >= a.len() {
        0
    } else {
        item_changes(a[i], b[i]) + army_changes(a, b, i + 1)
    }
}

pub open spec fn openings_read_alike(a: Seq<Opening>, b: Seq<Opening>) -> bool {
    &&& a.len() == b.len()
    &&& forall|i: int| 0 <= i < a.len() ==> opening_reads_alike(#[trigger] a[i], b[i])
}

/// From position `i` on.
pub open spec fn openings_changes(a: Seq<Opening>, b: Seq<Opening>, i: int) -> nat
    decreases a.len() - i,
{
    if i < 0 || i >= a.len() {
        0
    } else {
        opening_changes(a[i], b[i]) + openings_changes(a, b, i + 1)
    }
}

pub open spec fn resources_read_alike(a: Seq<ResourceDef>, b: Seq<ResourceDef>) -> bool {
    &&& a.len() == b.len()
    &&& forall|i: int| 0 <= i < a.len() ==> resource_reads_alike(#[trigger] a[i], b[i])
}

/// From position `i` on.
pub open spec fn resources_changes(a: Seq<ResourceDef>, b: Seq<ResourceDef>, i: int) -> nat
    decreases a.len() - i,
{
    if i < 0 || i >= a.len() {
        0
    } else {
        resource_changes(a[i], b[i]) + resources_changes(a, b, i + 1)
    }
}

pub open spec fn ai_reads_alike(a: AiDef, b: AiDef) -> bool {
    a.barracks@ == b.barracks@ && army_read_alike(a.army@, b.army@)
}

pub open spec fn ai_changes(a: AiDef, b: AiDef) -> nat {
    ne(a.think_interval_ticks, b.think_interval_ticks) + ne(a.worker_target, b.worker_target) + ne(
        a.barracks_at_tick,
        b.barracks_at_tick,
    ) + ne(a.barracks_offset, b.barracks_offset) + ne(a.attack_at_army, b.attack_at_army) + ne(
        a.attack_interval_ticks,
        b.attack_interval_ticks,
    ) + ne(a.attack_spread, b.attack_spread) + army_changes(a.army@, b.army@, 0)
}

pub open spec fn strategy_reads_alike(a: StrategyDef, b: StrategyDef) -> bool {
    a.id@ == b.id@ && openings_read_alike(a.barracks@, b.barracks@) && army_read_alike(
        a.army@,
        b.army@,
    )
}

pub open spec fn strategy_changes(a: StrategyDef, b: StrategyDef) -> nat {
    ne(a.think_interval_ticks, b.think_interval_ticks) + ne(a.worker_target, b.worker_target) + ne(
        a.attack_at_army,
        b.attack_at_army,
    ) + ne(a.attack_interval_ticks, b.attack_interval_ticks) + ne(a.attack_spread, b.attack_spread)
        + openings_changes(a.barracks@, b.barracks@, 0) + army_changes(a.army@, b.army@, 0)
}

pub open spec fn strategies_read_alike(a: Seq<StrategyDef>, b: Seq<StrategyDef>) -> bool {
    &&& a.len() == b.len()
    &&& forall|i: int| 0 <= i < a.len() ==> strategy_reads_alike(#[trigger] a[i], b[i])
}

/// From position `i` on.
pub open spec fn strategies_changes(a: Seq<StrategyDef>, b: Seq<StrategyDef>, i: int) -> nat
    decreases a.len() - i,
{
    if i < 0 || i >= a.len() {
        0
    } else {
        strategy_changes(a[i], b[i]) + strategies_changes(a, b, i + 1)
    }
}

/// The same texts throughout, and lists of the same lengths.
pub open spec fn reads_alike(a: Content, b: Content) -> bool {
    &&& units_read_alike(a.units@, b.units@)
    &&& buildings_read_alike(a.buildings@, b.buildings@)
    &&& ai_reads_alike(a.ai, b.ai)
    &&& resources_read_alike(a.resources@, b.resources@)
    &&& same_texts(a.mvp_active@, b.mvp_active@)
    &&& economy_reads_alike(a.economy, b.economy)
    &&& strategies_read_alike(a.strategies@, b.strategies@)
    &&& a.default_strategy@ == b.default_strategy@
}

/// In how many numbers, flags and kinds two content sets differ that read alike.
pub open spec fn changes(a: Content, b: Content) -> nat {
    units_changes(a.units@, b.units@, 0) + buildings_changes(a.buildings@, b.buildings@, 0)
        + combat_changes(a.combat, b.combat) + nemesis_changes(a.nemesis_bonus, b.nemesis_bonus)
        + ai_changes(a.ai, b.ai) + resources_changes(a.resources@, b.resources@, 0)
        + economy_changes(a.economy, b.economy) + strategies_changes(
        a.strategies@,
        b.strategies@,
        0,
    )
}

proof fn lemma_texts_gap(a: Seq<String>, r1: Seq<u64>, b: Seq<String>, r2: Seq<u64>, i: int)
    requires
        same_texts(a, b),
        0 <= i <= a.len(),
    ensures
        a.len() == b.len(),
        adds(
            fingerprint::texts(a, i, r1),
            r1,
            fingerprint::texts(b, i, r2),
            r2,
            0,
        ),
    decreases a.len() - i,
{
    broadcast use group_gap;

    assert(text::views(a).len() == a.len() && text::views(b).len() == b.len());
    if i < a.len() {
        assert(text::views(a)[i] == a[i]@ && text::views(b)[i] == b[i]@);
        lemma_texts_gap(a, r1, b, r2, i + 1);
    }
}

proof fn lemma_opt_gap(s: Option<Seq<char>>, r1: Seq<u64>, r2: Seq<u64>)
    ensures
        adds(
            fingerprint::opt_chars(s, r1),
            r1,
            fingerprint::opt_chars(s, r2),
            r2,
            0,
        ),
{
    broadcast use group_gap;

}

proof fn lemma_stats_gap(a: UnitDef, r1: Seq<u64>, b: UnitDef, r2: Seq<u64>)
    ensures
        adds(
            fingerprint::unit_stats(a, r1),
            r1,
            fingerprint::unit_stats(b, r2),
            r2,
            stats_changes(a, b),
        ),
{
    broadcast use group_gap;

}

proof fn lemma_unit_gap(a: UnitDef, r1: Seq<u64>, b: UnitDef, r2: Seq<u64>)
    requires
        unit_reads_alike(a, b),
    ensures
        adds(
            fingerprint::unit_words(a, r1),
            r1,
            fingerprint::unit_words(b, r2),
            r2,
            unit_changes(a, b),
        ),
{
    let x6 = fingerprint::flag(a.gathers, fingerprint::flag(a.builds, r1));
    let y6 = fingerprint::flag(b.gathers, fingerprint::flag(b.builds, r2));
    let nemesis = fingerprint::opt_view(a.nemesis);
    let x5 = fingerprint::opt_chars(nemesis, x6);
    let y5 = fingerprint::opt_chars(nemesis, y6);
    let x4 = fingerprint::unit_stats(a, x5);
    let y4 = fingerprint::unit_stats(b, y5);
    let x3 = word(a.cost.amount as u64, word(fingerprint::kind_word(a.mvp_kind), x4));
    let y3 = word(b.cost.amount as u64, word(fingerprint::kind_word(b.mvp_kind), y4));
    let resource = a.cost.resource@;
    let x2 = fingerprint::opt_chars(fingerprint::opt_view(a.barracks), chars(resource, x3));
    let y2 = fingerprint::opt_chars(fingerprint::opt_view(a.barracks), chars(resource, y3));
    let x1 = fingerprint::opt_chars(fingerprint::opt_view(a.source), x2);
    let y1 = fingerprint::opt_chars(fingerprint::opt_view(a.source), y2);
    assert(adds(x6, r1, y6, r2, ne(a.gathers, b.gathers) + ne(a.builds, b.builds))) by {
        broadcast use group_gap;

    }
    lemma_opt_gap(nemesis, x6, y6);
    lemma_stats_gap(a, x5, b, y5);
    assert(adds(x3, x4, y3, y4, ne(a.cost.amount, b.cost.amount) + ne(a.mvp_kind, b.mvp_kind))) by {
        broadcast use group_gap;

    }
    lemma_gap_chars(resource, x3, y3);
    lemma_chars_len(resource, x3);
    lemma_chars_len(resource, y3);
    lemma_opt_gap(fingerprint::opt_view(a.barracks), chars(resource, x3), chars(resource, y3));
    lemma_opt_gap(fingerprint::opt_view(a.source), x2, y2);
    let x0 = chars(a.id@, chars(a.name@, x1));
    let y0 = chars(a.id@, chars(a.name@, y1));
    assert(adds(x0, x1, y0, y1, 0)) by {
        broadcast use group_gap;

    }
}

proof fn lemma_building_gap(a: BuildingDef, r1: Seq<u64>, b: BuildingDef, r2: Seq<u64>)
    requires
        building_reads_alike(a, b),
    ensures
        adds(
            fingerprint::building_words(a, r1),
            r1,
            fingerprint::building_words(b, r2),
            r2,
            building_changes(a, b),
        ),
{
    broadcast use group_gap;

    let x = fingerprint::flag(
        a.dropoff,
        fingerprint::flag(a.victory, word(a.mvp_defense as u64, word(a.mvp_armor as u64, r1))),
    );
    let y = fingerprint::flag(
        b.dropoff,
        fingerprint::flag(b.victory, word(b.mvp_defense as u64, word(b.mvp_armor as u64, r2))),
    );
    lemma_texts_gap(a.produces@, x, b.produces@, y, 0);
}

proof fn lemma_combat_gap(a: CombatDef, r1: Seq<u64>, b: CombatDef, r2: Seq<u64>)
    ensures
        adds(
            fingerprint::combat_words(a, r1),
            r1,
            fingerprint::combat_words(b, r2),
            r2,
            combat_changes(a, b),
        ),
{
    broadcast use group_gap;

}

proof fn lemma_nemesis_gap(a: NemesisBonus, r1: Seq<u64>, b: NemesisBonus, r2: Seq<u64>)
    ensures
        adds(
            fingerprint::nemesis_words(a, r1),
            r1,
            fingerprint::nemesis_words(b, r2),
            r2,
            nemesis_changes(a, b),
        ),
{
    broadcast use group_gap;

}

proof fn lemma_units_gap(a: Seq<UnitDef>, r1: Seq<u64>, b: Seq<UnitDef>, r2: Seq<u64>, i: int)
    requires
        units_read_alike(a, b),
        0 <= i <= a.len(),
    ensures
        adds(
            fingerprint::units_words(a, i, r1),
            r1,
            fingerprint::units_words(b, i, r2),
            r2,
            units_changes(a, b, i),
        ),
    decreases a.len() - i,
{
    if i < a.len() {
        let x = fingerprint::units_words(a, i + 1, r1);
        let y = fingerprint::units_words(b, i + 1, r2);
        lemma_unit_gap(a[i], x, b[i], y);
        lemma_units_gap(a, r1, b, r2, i + 1);
    }
}

proof fn lemma_buildings_gap(
    a: Seq<BuildingDef>,
    r1: Seq<u64>,
    b: Seq<BuildingDef>,
    r2: Seq<u64>,
    i: int,
)
    requires
        buildings_read_alike(a, b),
        0 <= i <= a.len(),
    ensures
        adds(
            fingerprint::buildings_words(a, i, r1),
            r1,
            fingerprint::buildings_words(b, i, r2),
            r2,
            buildings_changes(a, b, i),
        ),
    decreases a.len() - i,
{
    if i < a.len() {
        let x = fingerprint::buildings_words(a, i + 1, r1);
        let y = fingerprint::buildings_words(b, i + 1, r2);
        lemma_building_gap(a[i], x, b[i], y);
        lemma_buildings_gap(a, r1, b, r2, i + 1);
    }
}

proof fn lemma_army_gap(a: Seq<ArmyItem>, r1: Seq<u64>, b: Seq<ArmyItem>, r2: Seq<u64>, i: int)
    requires
        army_read_alike(a, b),
        0 <= i <= a.len(),
    ensures
        adds(
            fingerprint::army_words(a, i, r1),
            r1,
            fingerprint::army_words(b, i, r2),
            r2,
            army_changes(a, b, i),
        ),
    decreases a.len() - i,
{
    if i < a.len() {
        let x = fingerprint::army_words(a, i + 1, r1);
        let y = fingerprint::army_words(b, i + 1, r2);
        assert(item_reads_alike(a[i], b[i]));
        let x2 = word(a[i].count as u64, x);
        let y2 = word(b[i].count as u64, y);
        lemma_gap_chars(a[i].unit@, x2, y2);
        lemma_chars_len(a[i].unit@, x2);
        lemma_chars_len(a[i].unit@, y2);
        lemma_gap_word(a[i].count as u64, x, b[i].count as u64, y);
        lemma_word_len(a[i].count as u64, x);
        lemma_word_len(b[i].count as u64, y);
        lemma_army_gap(a, r1, b, r2, i + 1);
    }
}

proof fn lemma_openings_gap(a: Seq<Opening>, r1: Seq<u64>, b: Seq<Opening>, r2: Seq<u64>, i: int)
    requires
        openings_read_alike(a, b),
        0 <= i <= a.len(),
    ensures
        adds(
            fingerprint::openings_words(a, i, r1),
            r1,
            fingerprint::openings_words(b, i, r2),
            r2,
            openings_changes(a, b, i),
        ),
    decreases a.len() - i,
{
    if i < a.len() {
        let x = fingerprint::openings_words(a, i + 1, r1);
        let y = fingerprint::openings_words(b, i + 1, r2);
        broadcast use group_gap;

        assert(opening_reads_alike(a[i], b[i]));
        lemma_openings_gap(a, r1, b, r2, i + 1);
    }
}

proof fn lemma_resource_gap(a: ResourceDef, r1: Seq<u64>, b: ResourceDef, r2: Seq<u64>)
    requires
        resource_reads_alike(a, b),
    ensures
        adds(
            fingerprint::resource_words(a, r1),
            r1,
            fingerprint::resource_words(b, r2),
            r2,
            resource_changes(a, b),
        ),
{
    broadcast use group_gap;

    lemma_texts_gap(a.powers@, r1, b.powers@, r2, 0);
}

proof fn lemma_resources_gap(
    a: Seq<ResourceDef>,
    r1: Seq<u64>,
    b: Seq<ResourceDef>,
    r2: Seq<u64>,
    i: int,
)
    requires
        resources_read_alike(a, b),
        0 <= i <= a.len(),
    ensures
        adds(
            fingerprint::resources_words(a, i, r1),
            r1,
            fingerprint::resources_words(b, i, r2),
            r2,
            resources_changes(a, b, i),
        ),
    decreases a.len() - i,
{
    if i < a.len() {
        let x = fingerprint::resources_words(a, i + 1, r1);
        let y = fingerprint::resources_words(b, i + 1, r2);
        lemma_resource_gap(a[i], x, b[i], y);
        lemma_resources_gap(a, r1, b, r2, i + 1);
    }
}

proof fn lemma_economy_gap(a: EconomyDef, r1: Seq<u64>, b: EconomyDef, r2: Seq<u64>)
    requires
        economy_reads_alike(a, b),
    ensures
        adds(
            fingerprint::economy_words(a, r1),
            r1,
            fingerprint::economy_words(b, r2),
            r2,
            economy_changes(a, b),
        ),
{
    broadcast use group_gap;

}

proof fn lemma_ai_gap(a: AiDef, r1: Seq<u64>, b: AiDef, r2: Seq<u64>)
    requires
        ai_reads_alike(a, b),
    ensures
        adds(
            fingerprint::ai_words(a, r1),
            r1,
            fingerprint::ai_words(b, r2),
            r2,
            ai_changes(a, b),
        ),
{
    broadcast use group_gap;

    lemma_army_gap(a.army@, r1, b.army@, r2, 0);
}

proof fn lemma_strategy_gap(a: StrategyDef, r1: Seq<u64>, b: StrategyDef, r2: Seq<u64>)
    requires
        strategy_reads_alike(a, b),
    ensures
        adds(
            fingerprint::strategy_words(a, r1),
            r1,
            fingerprint::strategy_words(b, r2),
            r2,
            strategy_changes(a, b),
        ),
{
    broadcast use group_gap;

    let x = word(a.army@.len() as u64, fingerprint::army_words(a.army@, 0, r1));
    let y = word(b.army@.len() as u64, fingerprint::army_words(b.army@, 0, r2));
    lemma_army_gap(a.army@, r1, b.army@, r2, 0);
    lemma_openings_gap(a.barracks@, x, b.barracks@, y, 0);
}

proof fn lemma_strategies_gap(
    a: Seq<StrategyDef>,
    r1: Seq<u64>,
    b: Seq<StrategyDef>,
    r2: Seq<u64>,
    i: int,
)
    requires
        strategies_read_alike(a, b),
        0 <= i <= a.len(),
    ensures
        adds(
            fingerprint::strategies_words(a, i, r1),
            r1,
            fingerprint::strategies_words(b, i, r2),
            r2,
            strategies_changes(a, b, i),
        ),
    decreases a.len() - i,
{
    if i < a.len() {
        let x = fingerprint::strategies_words(a, i + 1, r1);
        let y = fingerprint::strategies_words(b, i + 1, r2);
        lemma_strategy_gap(a[i], x, b[i], y);
        lemma_strategies_gap(a, r1, b, r2, i + 1);
    }
}

proof fn lemma_tail_gap(a: Content, b: Content)
    requires
        reads_alike(a, b),
    ensures
        fingerprint::economy_section(a).len() == fingerprint::economy_section(b).len(),
        gap(fingerprint::economy_section(a), fingerprint::economy_section(b)) == economy_changes(
            a.economy,
            b.economy,
        ) + strategies_changes(a.strategies@, b.strategies@, 0),
{
    broadcast use group_gap;

    let e = Seq::<u64>::empty();
    if a.scripted() {
        let (x1, y1) = (chars(a.default_strategy@, e), chars(b.default_strategy@, e));
        lemma_strategies_gap(a.strategies@, x1, b.strategies@, y1, 0);
    }
    let (x2, y2) = (fingerprint::strategies_section(a), fingerprint::strategies_section(b));
    lemma_economy_gap(a.economy, x2, b.economy, y2);
}

proof fn lemma_resources_section_gap(a: Content, b: Content)
    requires
        reads_alike(a, b),
    ensures
        fingerprint::resources_section(a).len() == fingerprint::resources_section(b).len(),
        gap(fingerprint::resources_section(a), fingerprint::resources_section(b))
            == resources_changes(a.resources@, b.resources@, 0) + gap(
            fingerprint::economy_section(a),
            fingerprint::economy_section(b),
        ),
{
    broadcast use group_gap;

    lemma_tail_gap(a, b);
    let (x1, y1) = (fingerprint::economy_section(a), fingerprint::economy_section(b));
    lemma_texts_gap(a.mvp_active@, x1, b.mvp_active@, y1, 0);
    let x2 = chars("mvp_active"@, fingerprint::text_list(a.mvp_active@, x1));
    let y2 = chars("mvp_active"@, fingerprint::text_list(b.mvp_active@, y1));
    lemma_resources_gap(a.resources@, x2, b.resources@, y2, 0);
}

proof fn lemma_combat_section_gap(a: Content, b: Content)
    requires
        reads_alike(a, b),
    ensures
        fingerprint::combat_section(a).len() == fingerprint::combat_section(b).len(),
        gap(fingerprint::combat_section(a), fingerprint::combat_section(b)) == combat_changes(
            a.combat,
            b.combat,
        ) + nemesis_changes(a.nemesis_bonus, b.nemesis_bonus) + ai_changes(a.ai, b.ai) + gap(
            fingerprint::resources_section(a),
            fingerprint::resources_section(b),
        ),
{
    broadcast use group_gap;

    lemma_resources_section_gap(a, b);
    let (x1, y1) = (fingerprint::resources_section(a), fingerprint::resources_section(b));
    lemma_ai_gap(a.ai, x1, b.ai, y1);
    let x2 = chars("ai"@, fingerprint::ai_words(a.ai, x1));
    let y2 = chars("ai"@, fingerprint::ai_words(b.ai, y1));
    lemma_nemesis_gap(a.nemesis_bonus, x2, b.nemesis_bonus, y2);
    let x3 = chars("nemesis"@, fingerprint::nemesis_words(a.nemesis_bonus, x2));
    let y3 = chars("nemesis"@, fingerprint::nemesis_words(b.nemesis_bonus, y2));
    lemma_combat_gap(a.combat, x3, b.combat, y3);
}

/// Content sets that read alike are written as streams of one length, which
/// differ in as many words as the content sets differ in values.
pub proof fn a_word_for_every_change(a: Content, b: Content)
    requires
        reads_alike(a, b),
    ensures
        stream(a).len() == stream(b).len(),
        gap(stream(a), stream(b)) == changes(a, b),
{
    broadcast use group_gap;

    lemma_tail_gap(a, b);
    lemma_resources_section_gap(a, b);
    lemma_combat_section_gap(a, b);
    let (x1, y1) = (fingerprint::combat_section(a), fingerprint::combat_section(b));
    lemma_buildings_gap(a.buildings@, x1, b.buildings@, y1, 0);
    let x2 = word(a.buildings@.len() as u64, fingerprint::buildings_words(a.buildings@, 0, x1));
    let y2 = word(b.buildings@.len() as u64, fingerprint::buildings_words(b.buildings@, 0, y1));
    lemma_units_gap(a.units@, chars("buildings"@, x2), b.units@, chars("buildings"@, y2), 0);
}

// ---- the fingerprint -----------------------------------------------------------

/// A report is never the mark of "unknown". It is the hash itself, but for
/// zero, which is reported as one: no other two hashes are reported alike.
pub proof fn a_report_is_known(h: u64, k: u64)
    ensures
        fingerprint::reported(h) != ContentFingerprint::UNKNOWN,
        h != 0 ==> fingerprint::reported(h) == h,
        h == 0 ==> fingerprint::reported(h) == 1,
        fingerprint::reported(h) == fingerprint::reported(k) ==> h == k || (h == 0 && k == 1) || (h
            == 1 && k == 0),
{
}

/// One content set has one fingerprint, whoever reads it in.
pub proof fn equal_content_has_one_fingerprint(a: Content, b: Content)
    requires
        reads_alike(a, b),
        changes(a, b) == 0,
    ensures
        fingerprint::content_hash(a) == fingerprint::content_hash(b),
        fingerprint::content_hash(a) != 0,
{
    a_word_for_every_change(a, b);
    lemma_no_gap(stream(a), stream(b));
}

/// A content set of which one number, flag or kind was changed has another
/// fingerprint. The one exception is the pair of hashes zero and one: zero is
/// reserved, and reported as one.
pub proof fn one_change_tells(a: Content, b: Content)
    requires
        reads_alike(a, b),
        changes(a, b) == 1,
    ensures
        fnv(stream(a)) != fnv(stream(b)),
        fingerprint::content_hash(a) == fingerprint::content_hash(b) ==> {
            ||| fnv(stream(a)) == 0 && fnv(stream(b)) == 1
            ||| fnv(stream(a)) == 1 && fnv(stream(b)) == 0
        },
{
    a_word_for_every_change(a, b);
    let k = lemma_one_gap(stream(a), stream(b));
    one_word_tells(stream(a), stream(b), k);
}

} // verus!
