//! What content the sim can run.
//!
//! Anything the sim reads must be stated in the data and must be a number it
//! can hold, so what is not playable is refused here with the first reason.

use vstd::prelude::*;
use vstd::string::*;

use crate::float::F32;
use crate::sim::content::lookup;
use crate::sim::content::script;
use crate::sim::content::{
    AiDef, ArmyItem, BuildingDef, CombatDef, Content, NemesisBonus, Opening, ResourceDef, StrategyDef,
    UnitDef,
};
use crate::text;

verus! {

/// Why content failed to load.
#[derive(Debug)]
pub enum ContentError {
    /// A file could not be read.
    Io { path: String, msg: String },
    /// A file could not be parsed.
    Parse { path: String, msg: String },
    /// The files parsed but the content is not playable.
    Invalid { msg: String },
}

impl ContentError {
    /// The text of the error.
    pub open spec fn shown(&self) -> Seq<char> {
        match self {
            ContentError::Io { path, msg } => "cannot read "@ + path@ + ": "@ + msg@,
            ContentError::Parse { path, msg } => "cannot parse "@ + path@ + ": "@ + msg@,
            ContentError::Invalid { msg } => "invalid content: "@ + msg@,
        }
    }

    /// The text of the error.
    pub fn message(&self) -> (r: String)
        ensures
            r@ == self.shown(),
    {
        match self {
            ContentError::Io { path, msg } => {
                let mut s: String = text::cat3("cannot read ", path.as_str(), ": ");
                s.append(msg.as_str());
                s
            },
            ContentError::Parse { path, msg } => {
                let mut s: String = text::cat3("cannot parse ", path.as_str(), ": ");
                s.append(msg.as_str());
                s
            },
            ContentError::Invalid { msg } => {
                let mut s: String = "invalid content: ".to_owned();
                s.append(msg.as_str());
                s
            },
        }
    }
}

/// The first of two reasons.
pub open spec fn or_else(a: Option<Seq<char>>, b: Option<Seq<char>>) -> Option<Seq<char>> {
    if a is Some {
        a
    } else {
        b
    }
}

/// A reason as it is read.
pub open spec fn seen(o: Option<String>) -> Option<Seq<char>> {
    match o {
        Some(s) => Some(s@),
        None => None,
    }
}

// ---- ids --------------------------------------------------------------------

/// From position `i` on, the first id that stands earlier too: where it first
/// stood, and where it stands again.
pub open spec fn dup_from(ids: Seq<Seq<char>>, i: int) -> Option<(int, int)>
    decreases ids.len() - i,
{
    if i < 0 || i >= ids.len() {
        None
    } else {
        match lookup::first_at(ids.take(i), ids[i], 0) {
            Some(j) => Some((j, i)),
            None => dup_from(ids, i + 1),
        }
    }
}

pub open spec fn dup_problem(what: Seq<char>, ids: Seq<Seq<char>>) -> Option<Seq<char>> {
    match dup_from(ids, 0) {
        None => None,
        Some((j, i)) => Some(
            "duplicate "@ + what + " id `"@ + ids[i] + "` at positions "@ + text::dec(j as nat)
                + " and "@ + text::dec(i as nat)
                + ": an id is how the command log names content, so a repeated one makes a recorded order replay as a different definition"@,
        ),
    }
}

fn check_dup(what: &str, ids: &Vec<String>) -> (r: Option<String>)
    ensures
        seen(r) == dup_problem(what@, text::views(ids@)),
{
    let ghost all = text::views(ids@);
    let mut i: usize = 0;
    while i < ids.len()
        invariant
            i <= ids@.len(),
            all == text::views(ids@),
            dup_from(all, 0) == dup_from(all, i as int),
        decreases ids@.len() - i,
    {
        let ghost earlier = all.take(i as int);
        let mut j: usize = 0;
        while j < i
            invariant
                j <= i < ids@.len(),
                all == text::views(ids@),
                earlier == all.take(i as int),
                dup_from(all, 0) == dup_from(all, i as int),
                lookup::first_at(earlier, all[i as int], 0) == lookup::first_at(
                    earlier,
                    all[i as int],
                    j as int,
                ),
            decreases i - j,
        {
            if text::same(ids[j].as_str(), ids[i].as_str()) {
                let mut s: String = text::cat5(
                    "duplicate ",
                    what,
                    " id `",
                    ids[i].as_str(),
                    "` at positions ",
                );
                text::push_dec(&mut s, j as u64);
                s.append(" and ");
                text::push_dec(&mut s, i as u64);
                s.append(
                    ": an id is how the command log names content, so a repeated one makes a recorded order replay as a different definition",
                );
                return Some(s);
            }
            j = j + 1;
        }
        i = i + 1;
    }
    None
}

pub open spec fn resource_ids(resources: Seq<ResourceDef>) -> Seq<Seq<char>> {
    resources.map_values(|r: ResourceDef| r.id@)
}

// ---- buildings --------------------------------------------------------------

/// "<kind> `<id>` <rest>"
pub open spec fn about(kind: Seq<char>, id: Seq<char>, rest: Seq<char>) -> Seq<char> {
    kind + " `"@ + id + "`"@ + rest
}

fn tell(kind: &str, id: &str, rest: &str) -> (r: String)
    ensures
        r@ == about(kind@, id@, rest@),
{
    text::cat5(kind, " `", id, "`", rest)
}

pub open spec fn stat_problem(
    kind: Seq<char>,
    id: Seq<char>,
    stat: Seq<char>,
    value: u32,
    max: u32,
) -> Option<Seq<char>> {
    if value > max {
        Some(
            about(
                kind,
                id,
                " has "@ + stat + " "@ + text::dec(value as nat) + ", above the design scale max "@
                    + text::dec(max as nat),
            ),
        )
    } else {
        None
    }
}

fn check_stat(kind: &str, id: &str, stat: &str, value: u32, max: u32) -> (r: Option<String>)
    ensures
        seen(r) == stat_problem(kind@, id@, stat@, value, max),
{
    if value > max {
        let mut rest: String = text::cat3(" has ", stat, " ");
        text::push_dec(&mut rest, value as u64);
        rest.append(", above the design scale max ");
        text::push_dec(&mut rest, max as u64);
        Some(tell(kind, id, rest.as_str()))
    } else {
        None
    }
}

/// From position `k` on, the first unit that a building lists and nobody
/// defines.
pub open spec fn produces_problem(c: &Content, b: &BuildingDef, k: int) -> Option<Seq<char>>
    decreases b.produces@.len() - k,
{
    if k < 0 || k >= b.produces@.len() {
        None
    } else if c.unit_pos(b.produces@[k]@) is None {
        Some(about("building"@, b.id@, " produces unknown unit `"@ + b.produces@[k]@ + "`"@))
    } else {
        produces_problem(c, b, k + 1)
    }
}

/// The first reason why a building is not playable.
pub open spec fn building_problem(c: &Content, b: &BuildingDef) -> Option<Seq<char>> {
    if b.alloy_cost == 0 {
        Some(about("building"@, b.id@, " has no Alloy cost"@))
    } else if b.mvp_defense == 0 {
        Some(about("building"@, b.id@, " has no HP pool (mvp_defense 0)"@))
    } else {
        or_else(
            stat_problem("building"@, b.id@, "mvp_defense"@, b.mvp_defense, c.combat.max_stat),
            or_else(
                stat_problem("building"@, b.id@, "mvp_armor"@, b.mvp_armor, c.combat.max_stat),
                produces_problem(c, b, 0),
            ),
        )
    }
}

fn check_building(c: &Content, b: &BuildingDef) -> (r: Option<String>)
    ensures
        seen(r) == building_problem(c, b),
{
    if b.alloy_cost == 0 {
        return Some(tell("building", b.id.as_str(), " has no Alloy cost"));
    }
    if b.mvp_defense == 0 {
        return Some(tell("building", b.id.as_str(), " has no HP pool (mvp_defense 0)"));
    }
    let s: Option<String> = check_stat(
        "building",
        b.id.as_str(),
        "mvp_defense",
        b.mvp_defense,
        c.combat.max_stat,
    );
    if s.is_some() {
        return s;
    }
    let s: Option<String> = check_stat(
        "building",
        b.id.as_str(),
        "mvp_armor",
        b.mvp_armor,
        c.combat.max_stat,
    );
    if s.is_some() {
        return s;
    }
    check_produces(c, b)
}

fn check_produces(c: &Content, b: &BuildingDef) -> (r: Option<String>)
    ensures
        seen(r) == produces_problem(c, b, 0),
{
    let mut k: usize = 0;
    while k < b.produces.len()
        invariant
            k <= b.produces@.len(),
            produces_problem(c, b, 0) == produces_problem(c, b, k as int),
        decreases b.produces@.len() - k,
    {
        if c.unit_index(b.produces[k].as_str()).is_none() {
            let rest: String = text::cat3(" produces unknown unit `", b.produces[k].as_str(), "`");
            return Some(tell("building", b.id.as_str(), rest.as_str()));
        }
        k = k + 1;
    }
    None
}

pub open spec fn buildings_problem(c: &Content, k: int) -> Option<Seq<char>>
    decreases c.buildings@.len() - k,
{
    if k < 0 || k >= c.buildings@.len() {
        None
    } else {
        or_else(building_problem(c, &c.buildings@[k]), buildings_problem(c, k + 1))
    }
}

fn check_buildings(c: &Content) -> (r: Option<String>)
    ensures
        seen(r) == buildings_problem(c, 0),
{
    let mut k: usize = 0;
    while k < c.buildings.len()
        invariant
            k <= c.buildings@.len(),
            buildings_problem(c, 0) == buildings_problem(c, k as int),
        decreases c.buildings@.len() - k,
    {
        let s: Option<String> = check_building(c, &c.buildings[k]);
        if s.is_some() {
            return s;
        }
        k = k + 1;
    }
    None
}

// ---- units ------------------------------------------------------------------

/// Does some building from position `k` on list the unit?
pub open spec fn produced_from(c: &Content, id: Seq<char>, k: int) -> bool {
    exists|b: int|
        k <= b < c.buildings@.len() && 0 <= b && lookup::listed(
            (#[trigger] c.buildings@[b]).produces@,
            id,
        )
}

fn is_produced(c: &Content, id: &str) -> (r: bool)
    ensures
        r == produced_from(c, id@, 0),
{
    let mut k: usize = 0;
    while k < c.buildings.len()
        invariant
            k <= c.buildings@.len(),
            produced_from(c, id@, 0) == produced_from(c, id@, k as int),
        decreases c.buildings@.len() - k,
    {
        if lookup::lists(&c.buildings[k].produces, id) {
            return true;
        }
        k = k + 1;
    }
    false
}

/// The first reason why a unit's attack data is not playable.
pub open spec fn attack_problem(c: &Content, u: &UnitDef) -> Option<Seq<char>> {
    if u.offense > 0 {
        if u.mvp_attack_ticks == 0 {
            Some(about("unit"@, u.id@, " has offense but no attack cadence"@))
        } else if !u.mvp_attack_range.finite_positive() {
            Some(about("unit"@, u.id@, " has offense but no attack range"@))
        } else if c.combat.engage_range.less(u.mvp_attack_range) {
            Some(about("unit"@, u.id@, " reaches further than it will chase"@))
        } else {
            None
        }
    } else if u.mvp_attack_ticks != 0 || !u.mvp_attack_range.same(F32::zero()) {
        Some(about("unit"@, u.id@, " has no offense but declares attack data"@))
    } else {
        None
    }
}

pub open spec fn nemesis_problem(c: &Content, u: &UnitDef) -> Option<Seq<char>> {
    match u.nemesis {
        Some(prey) => if c.unit_pos(prey@) is None {
            Some(about("unit"@, u.id@, " names unknown nemesis `"@ + prey@ + "`"@))
        } else {
            None
        },
        None => None,
    }
}

/// The first reason why a unit's stats are not playable.
pub open spec fn unit_stats_problem(c: &Content, u: &UnitDef) -> Option<Seq<char>> {
    or_else(
        stat_problem("unit"@, u.id@, "offense"@, u.offense, c.combat.max_stat),
        or_else(
            stat_problem("unit"@, u.id@, "defense"@, u.defense, c.combat.max_stat),
            or_else(
                stat_problem("unit"@, u.id@, "armor"@, u.armor, c.combat.max_stat),
                or_else(
                    stat_problem("unit"@, u.id@, "speed"@, u.speed, c.combat.max_stat),
                    if u.defense == 0 {
                        Some(about("unit"@, u.id@, " has no HP pool (defense 0)"@))
                    } else if u.speed == 0 {
                        Some(about("unit"@, u.id@, " cannot move (speed 0)"@))
                    } else {
                        None
                    },
                ),
            ),
        ),
    )
}

/// The first reason why a unit is not playable.
pub open spec fn unit_problem(c: &Content, u: &UnitDef) -> Option<Seq<char>> {
    if u.mvp_alloy_cost == 0 {
        Some(about("unit"@, u.id@, " has no Alloy cost"@))
    } else if u.mvp_train_ticks == 0 {
        Some(about("unit"@, u.id@, " has no training time"@))
    } else if u.gathers && (u.mvp_carry_capacity == 0 || u.mvp_gather_ticks == 0) {
        Some(
            about(
                "unit"@,
                u.id@,
                " gathers but declares no mvp_carry_capacity / mvp_gather_ticks"@,
            ),
        )
    } else if !produced_from(c, u.id@, 0) {
        Some(about("unit"@, u.id@, " has no producing building"@))
    } else {
        or_else(
            unit_stats_problem(c, u),
            or_else(attack_problem(c, u), nemesis_problem(c, u)),
        )
    }
}

fn check_unit_stats(c: &Content, u: &UnitDef) -> (r: Option<String>)
    ensures
        seen(r) == unit_stats_problem(c, u),
{
    let max: u32 = c.combat.max_stat;
    let s: Option<String> = check_stat("unit", u.id.as_str(), "offense", u.offense, max);
    if s.is_some() {
        return s;
    }
    let s: Option<String> = check_stat("unit", u.id.as_str(), "defense", u.defense, max);
    if s.is_some() {
        return s;
    }
    let s: Option<String> = check_stat("unit", u.id.as_str(), "armor", u.armor, max);
    if s.is_some() {
        return s;
    }
    let s: Option<String> = check_stat("unit", u.id.as_str(), "speed", u.speed, max);
    if s.is_some() {
        return s;
    }
    if u.defense == 0 {
        return Some(tell("unit", u.id.as_str(), " has no HP pool (defense 0)"));
    }
    if u.speed == 0 {
        return Some(tell("unit", u.id.as_str(), " cannot move (speed 0)"));
    }
    None
}

fn check_unit(c: &Content, u: &UnitDef) -> (r: Option<String>)
    ensures
        seen(r) == unit_problem(c, u),
{
    if u.mvp_alloy_cost == 0 {
        return Some(tell("unit", u.id.as_str(), " has no Alloy cost"));
    }
    if u.mvp_train_ticks == 0 {
        return Some(tell("unit", u.id.as_str(), " has no training time"));
    }
    if u.gathers && (u.mvp_carry_capacity == 0 || u.mvp_gather_ticks == 0) {
        return Some(
            tell(
                "unit",
                u.id.as_str(),
                " gathers but declares no mvp_carry_capacity / mvp_gather_ticks",
            ),
        );
    }
    if !is_produced(c, u.id.as_str()) {
        return Some(tell("unit", u.id.as_str(), " has no producing building"));
    }
    let s: Option<String> = check_unit_stats(c, u);
    if s.is_some() {
        return s;
    }
    if u.offense > 0 {
        if u.mvp_attack_ticks == 0 {
            return Some(tell("unit", u.id.as_str(), " has offense but no attack cadence"));
        }
        if !u.mvp_attack_range.is_finite_positive() {
            return Some(tell("unit", u.id.as_str(), " has offense but no attack range"));
        }
        if c.combat.engage_range.lt(&u.mvp_attack_range) {
            return Some(tell("unit", u.id.as_str(), " reaches further than it will chase"));
        }
    } else if u.mvp_attack_ticks != 0 || !u.mvp_attack_range.num_eq(&F32 { bits: 0 }) {
        return Some(tell("unit", u.id.as_str(), " has no offense but declares attack data"));
    }
    match &u.nemesis {
        Some(prey) => {
            if c.unit_index(prey.as_str()).is_none() {
                let rest: String = text::cat3(" names unknown nemesis `", prey.as_str(), "`");
                return Some(tell("unit", u.id.as_str(), rest.as_str()));
            }
        },
        None => {},
    }
    None
}

pub open spec fn units_problem(c: &Content, k: int) -> Option<Seq<char>>
    decreases c.units@.len() - k,
{
    if k < 0 || k >= c.units@.len() {
        None
    } else {
        or_else(unit_problem(c, &c.units@[k]), units_problem(c, k + 1))
    }
}

fn check_units(c: &Content) -> (r: Option<String>)
    ensures
        seen(r) == units_problem(c, 0),
{
    let mut k: usize = 0;
    while k < c.units.len()
        invariant
            k <= c.units@.len(),
            units_problem(c, 0) == units_problem(c, k as int),
        decreases c.units@.len() - k,
    {
        let s: Option<String> = check_unit(c, &c.units[k]);
        if s.is_some() {
            return s;
        }
        k = k + 1;
    }
    None
}

// ---- combat scaling ---------------------------------------------------------

/// A product the sim derives must fit the integer it counts in.
pub open spec fn peak_problem(what: Seq<char>, max_stat: u32, peak: nat) -> Option<Seq<char>> {
    if peak <= u32::MAX {
        None
    } else {
        Some(
            "mvp_combat scaling overflows the sim's u32 arithmetic: peak "@ + what
                + " at max_stat "@ + text::dec(max_stat as nat) + " is "@ + if peak
                <= u64::MAX {
                text::dec(peak)
            } else {
                "beyond u64"@
            },
        )
    }
}

fn check_peak(what: &str, max_stat: u32, peak: Option<u64>, Ghost(p): Ghost<nat>) -> (r: Option<
    String,
>)
    requires
        peak is Some == (p <= u64::MAX),
        peak matches Some(v) ==> v == p,
    ensures
        seen(r) == peak_problem(what@, max_stat, p),
{
    match peak {
        Some(v) => {
            if v <= 0xffff_ffff {
                return None;
            }
        },
        None => {},
    }
    let mut s: String = text::cat3(
        "mvp_combat scaling overflows the sim's u32 arithmetic: peak ",
        what,
        " at max_stat ",
    );
    text::push_dec(&mut s, max_stat as u64);
    s.append(" is ");
    match peak {
        Some(v) => {
            text::push_dec(&mut s, v);
        },
        None => {
            s.append("beyond u64");
        },
    }
    Some(s)
}

/// The largest damage against prey: the product with the multiplier must fit
/// the wider integer before it is brought back to scale.
pub open spec fn peak_damage(base: nat, milli: nat) -> nat {
    if base * milli <= u64::MAX {
        base * milli / 1_000
    } else {
        base * milli
    }
}

/// The first product that does not fit at the largest legal stat.
pub open spec fn peaks_problem(c: &CombatDef, milli: nat) -> Option<Seq<char>> {
    let m = c.max_stat as nat;
    or_else(
        peak_problem("HP pool"@, c.max_stat, m * c.hp_per_defense as nat),
        or_else(
            peak_problem("base damage"@, c.max_stat, m * c.damage_per_offense as nat),
            or_else(
                peak_problem(
                    "nemesis damage"@,
                    c.max_stat,
                    peak_damage(m * c.damage_per_offense as nat, milli),
                ),
                or_else(
                    peak_problem(
                        "armor mitigation"@,
                        c.max_stat,
                        m * c.mitigation_per_armor as nat,
                    ),
                    peak_problem(
                        "building HP pool"@,
                        c.max_stat,
                        m * c.building_hp_per_defense as nat,
                    ),
                ),
            ),
        ),
    )
}

fn wide_product(a: u32, b: u32) -> (r: u64)
    ensures
        r == a as nat * b as nat,
{
    assert(0 <= a * b <= 0xffff_ffff * 0xffff_ffff) by (nonlinear_arith)
        requires
            0 <= a <= 0xffff_ffff,
            0 <= b <= 0xffff_ffff,
    ;
    a as u64 * b as u64
}

fn check_peaks(c: &CombatDef, milli: u32) -> (r: Option<String>)
    ensures
        seen(r) == peaks_problem(c, milli as nat),
{
    let m: u32 = c.max_stat;
    let hp: u64 = wide_product(m, c.hp_per_defense);
    let base: u64 = wide_product(m, c.damage_per_offense);
    let armor: u64 = wide_product(m, c.mitigation_per_armor);
    let building: u64 = wide_product(m, c.building_hp_per_defense);
    let damage: Option<u64> = match base.checked_mul(milli as u64) {
        Some(p) => Some(p / 1_000),
        None => None,
    };
    let s: Option<String> = check_peak("HP pool", m, Some(hp), Ghost(hp as nat));
    if s.is_some() {
        return s;
    }
    let s: Option<String> = check_peak("base damage", m, Some(base), Ghost(base as nat));
    if s.is_some() {
        return s;
    }
    let s: Option<String> = check_peak(
        "nemesis damage",
        m,
        damage,
        Ghost(peak_damage(base as nat, milli as nat)),
    );
    if s.is_some() {
        return s;
    }
    let s: Option<String> = check_peak("armor mitigation", m, Some(armor), Ghost(armor as nat));
    if s.is_some() {
        return s;
    }
    check_peak("building HP pool", m, Some(building), Ghost(building as nat))
}

/// The first reason why the scaling is not playable. `mult_shown` is the
/// nemesis multiplier as people read it.
pub open spec fn combat_problem(
    c: &CombatDef,
    bonus: &NemesisBonus,
    mult_shown: Seq<char>,
) -> Option<Seq<char>> {
    if c.building_hp_per_defense == 0 {
        Some("mvp_combat building_hp_per_defense must be positive"@)
    } else if c.hp_per_defense == 0 || c.damage_per_offense == 0 || c.mitigation_per_armor == 0 {
        Some("mvp_combat scaling factors must be positive"@)
    } else if !c.speed_per_point.finite_positive() {
        Some("mvp_combat speed_per_point must be finite and positive"@)
    } else if !c.engage_range.finite_positive() {
        Some("mvp_combat engage_range must be finite and positive"@)
    } else if !c.pursue_range.finite() {
        Some("mvp_combat pursue_range must be finite"@)
    } else if c.pursue_range.less(c.engage_range) {
        Some("mvp_combat pursue_range must be >= engage_range"@)
    } else if c.max_stat == 0 {
        Some("mvp_combat max_stat must be positive"@)
    } else if !(bonus.damage_mult.finite() && F32::one().at_most(bonus.damage_mult)) {
        Some("nemesis_bonus.damage_mult must be finite and >= 1.0"@)
    } else {
        match bonus.milli() {
            None => Some(
                "nemesis_bonus.damage_mult "@ + mult_shown
                    + " cannot be held as an integer per-mille (round(mult * 1000) must fit u32)"@,
            ),
            Some(milli) => peaks_problem(c, milli),
        }
    }
}

fn check_combat(c: &CombatDef, bonus: &NemesisBonus, mult_shown: &str) -> (r: Option<String>)
    ensures
        seen(r) == combat_problem(c, bonus, mult_shown@),
{
    if c.building_hp_per_defense == 0 {
        return Some("mvp_combat building_hp_per_defense must be positive".to_owned());
    }
    if c.hp_per_defense == 0 || c.damage_per_offense == 0 || c.mitigation_per_armor == 0 {
        return Some("mvp_combat scaling factors must be positive".to_owned());
    }
    if !c.speed_per_point.is_finite_positive() {
        return Some("mvp_combat speed_per_point must be finite and positive".to_owned());
    }
    if !c.engage_range.is_finite_positive() {
        return Some("mvp_combat engage_range must be finite and positive".to_owned());
    }
    if !c.pursue_range.is_finite() {
        return Some("mvp_combat pursue_range must be finite".to_owned());
    }
    if c.pursue_range.lt(&c.engage_range) {
        return Some("mvp_combat pursue_range must be >= engage_range".to_owned());
    }
    if c.max_stat == 0 {
        return Some("mvp_combat max_stat must be positive".to_owned());
    }
    let one: F32 = F32 { bits: 0x3f80_0000 };
    if !(bonus.damage_mult.is_finite() && one.le(&bonus.damage_mult)) {
        return Some("nemesis_bonus.damage_mult must be finite and >= 1.0".to_owned());
    }
    match bonus.milli_exact() {
        None => Some(
            text::cat3(
                "nemesis_bonus.damage_mult ",
                mult_shown,
                " cannot be held as an integer per-mille (round(mult * 1000) must fit u32)",
            ),
        ),
        Some(milli) => check_peaks(c, milli),
    }
}

// ---- the win condition ------------------------------------------------------

/// The ids of the victory buildings among the first `k`.
pub open spec fn victory_ids(buildings: Seq<BuildingDef>) -> Seq<Seq<char>>
    decreases buildings.len(),
{
    if buildings.len() == 0 {
        Seq::empty()
    } else {
        let before = victory_ids(buildings.drop_last());
        if buildings.last().victory {
            before.push(buildings.last().id@)
        } else {
            before
        }
    }
}

/// Exactly one building is the thing whose loss ends the match.
pub open spec fn victory_problem(c: &Content) -> Option<Seq<char>> {
    let ids = victory_ids(c.buildings@);
    if ids.len() == 1 {
        None
    } else {
        Some(
            "exactly one building must be the victory target; found "@ + text::debug_list(ids),
        )
    }
}

fn check_victory(c: &Content) -> (r: Option<String>)
    ensures
        seen(r) == victory_problem(c),
{
    let mut found: Vec<String> = Vec::new();
    let mut k: usize = 0;
    assert(text::views(found@) =~= Seq::<Seq<char>>::empty());
    while k < c.buildings.len()
        invariant
            k <= c.buildings@.len(),
            text::views(found@) == victory_ids(c.buildings@.take(k as int)),
        decreases c.buildings@.len() - k,
    {
        proof {
            assert(c.buildings@.take(k + 1).drop_last() =~= c.buildings@.take(k as int));
        }
        if c.buildings[k].victory {
            let ghost before = found@;
            found.push(c.buildings[k].id.clone());
            assert(text::views(found@) =~= text::views(before).push(c.buildings@[k as int].id@));
        }
        k = k + 1;
    }
    assert(c.buildings@.take(k as int) =~= c.buildings@);
    assert(text::views(found@).len() == found@.len());
    if found.len() == 1 {
        None
    } else {
        let mut s: String = "exactly one building must be the victory target; found ".to_owned();
        s.append(text::debug_strs(&found).as_str());
        Some(s)
    }
}

// ---- the opening script -----------------------------------------------------

/// From entry `k` on, the first reason why the build order cannot be trained at
/// the building at `barracks`.
pub open spec fn army_problem(c: &Content, barracks: int, k: int) -> Option<Seq<char>>
    decreases c.ai.army@.len() - k,
{
    if k < 0 || k >= c.ai.army@.len() {
        None
    } else {
        let item = c.ai.army@[k];
        if item.count == 0 {
            Some(about("mvp_ai army entry"@, item.unit@, " has count 0"@))
        } else {
            match c.unit_pos(item.unit@) {
                None => Some(about("mvp_ai army names unknown unit"@, item.unit@, ""@)),
                Some(unit) => if !c.can_produce(barracks, unit) {
                    Some(
                        about(
                            "mvp_ai army names"@,
                            item.unit@,
                            ", which `"@ + c.ai.barracks@ + "` cannot produce"@,
                        ),
                    )
                } else {
                    army_problem(c, barracks, k + 1)
                },
            }
        }
    }
}

/// The first reason why the opening script is not playable.
pub open spec fn ai_problem(c: &Content) -> Option<Seq<char>> {
    let ai = c.ai;
    if ai.think_interval_ticks == 0 {
        Some("mvp_ai think_interval_ticks must be positive"@)
    } else if ai.attack_interval_ticks == 0 {
        Some("mvp_ai attack_interval_ticks must be positive"@)
    } else if ai.worker_target == 0 {
        Some("mvp_ai worker_target must be positive"@)
    } else if ai.attack_at_army == 0 {
        Some("mvp_ai attack_at_army must be positive"@)
    } else if !ai.barracks_offset.finite_positive() {
        Some("mvp_ai barracks_offset must be finite and positive"@)
    } else if !(ai.attack_spread.finite() && F32::zero().at_most(ai.attack_spread)) {
        Some("mvp_ai attack_spread must be finite and non-negative"@)
    } else {
        match c.building_pos(ai.barracks@) {
            None => Some(about("mvp_ai barracks"@, ai.barracks@, " is not a building"@)),
            Some(b) => if c.buildings@[b].victory {
                Some(
                    about(
                        "mvp_ai barracks"@,
                        ai.barracks@,
                        " is the victory target, not a placeable barracks"@,
                    ),
                )
            } else if ai.army@.len() == 0 {
                Some("mvp_ai army build order is empty"@)
            } else {
                or_else(
                    army_problem(c, b, 0),
                    if script::army_size(ai.army@) > u32::MAX {
                        Some("mvp_ai army counts overflow u32"@)
                    } else {
                        None
                    },
                )
            },
        }
    }
}

fn check_army(c: &Content, b: usize) -> (r: Option<String>)
    ensures
        seen(r) == army_problem(c, b as int, 0),
{
    let ai: &AiDef = &c.ai;
    let mut k: usize = 0;
    while k < ai.army.len()
        invariant
            ai == &c.ai,
            k <= ai.army@.len(),
            army_problem(c, b as int, 0) == army_problem(c, b as int, k as int),
        decreases ai.army@.len() - k,
    {
        let item: &ArmyItem = &ai.army[k];
        if item.count == 0 {
            return Some(tell("mvp_ai army entry", item.unit.as_str(), " has count 0"));
        }
        match c.unit_index(item.unit.as_str()) {
            None => {
                return Some(tell("mvp_ai army names unknown unit", item.unit.as_str(), ""));
            },
            Some(unit) => {
                if !c.produces(b, unit) {
                    let rest: String = text::cat3(
                        ", which `",
                        ai.barracks.as_str(),
                        "` cannot produce",
                    );
                    return Some(tell("mvp_ai army names", item.unit.as_str(), rest.as_str()));
                }
            },
        }
        k = k + 1;
    }
    None
}

fn check_ai(c: &Content) -> (r: Option<String>)
    ensures
        seen(r) == ai_problem(c),
{
    let ai: &AiDef = &c.ai;
    if ai.think_interval_ticks == 0 {
        return Some("mvp_ai think_interval_ticks must be positive".to_owned());
    }
    if ai.attack_interval_ticks == 0 {
        return Some("mvp_ai attack_interval_ticks must be positive".to_owned());
    }
    if ai.worker_target == 0 {
        return Some("mvp_ai worker_target must be positive".to_owned());
    }
    if ai.attack_at_army == 0 {
        return Some("mvp_ai attack_at_army must be positive".to_owned());
    }
    if !ai.barracks_offset.is_finite_positive() {
        return Some("mvp_ai barracks_offset must be finite and positive".to_owned());
    }
    let zero: F32 = F32 { bits: 0 };
    if !(ai.attack_spread.is_finite() && zero.le(&ai.attack_spread)) {
        return Some("mvp_ai attack_spread must be finite and non-negative".to_owned());
    }
    let b: usize = match c.building_index(ai.barracks.as_str()) {
        Some(b) => b,
        None => {
            return Some(tell("mvp_ai barracks", ai.barracks.as_str(), " is not a building"));
        },
    };
    if c.buildings[b].victory {
        return Some(
            tell(
                "mvp_ai barracks",
                ai.barracks.as_str(),
                " is the victory target, not a placeable barracks",
            ),
        );
    }
    if ai.army.len() == 0 {
        return Some("mvp_ai army build order is empty".to_owned());
    }
    let p: Option<String> = check_army(c, b);
    if p.is_some() {
        return p;
    }
    if ai.cycle_len().is_none() {
        return Some("mvp_ai army counts overflow u32".to_owned());
    }
    None
}

// ---- the economy ------------------------------------------------------------

pub open spec fn economy_problem(c: &Content) -> Option<Seq<char>> {
    let e = c.economy;
    if lookup::first_at(resource_ids(c.resources@), e.currency@, 0) is None {
        Some(about("mvp_economy currency"@, e.currency@, " is not a declared resource"@))
    } else if !(e.gather_range.finite_positive() && e.deposit_range.finite_positive()) {
        Some("mvp_economy ranges must be finite and positive"@)
    } else {
        None
    }
}

fn check_economy(c: &Content) -> (r: Option<String>)
    ensures
        seen(r) == economy_problem(c),
{
    let ghost all = resource_ids(c.resources@);
    let mut declared: bool = false;
    let mut k: usize = 0;
    while k < c.resources.len() && !declared
        invariant
            k <= c.resources@.len(),
            all == resource_ids(c.resources@),
            declared ==> lookup::first_at(all, c.economy.currency@, 0) is Some,
            !declared ==> lookup::first_at(all, c.economy.currency@, 0) == lookup::first_at(
                all,
                c.economy.currency@,
                k as int,
            ),
        decreases c.resources@.len() - k,
    {
        if text::same(c.resources[k].id.as_str(), c.economy.currency.as_str()) {
            declared = true;
        }
        k = k + 1;
    }
    if !declared {
        return Some(
            tell(
                "mvp_economy currency",
                c.economy.currency.as_str(),
                " is not a declared resource",
            ),
        );
    }
    if !(c.economy.gather_range.is_finite_positive()
        && c.economy.deposit_range.is_finite_positive()) {
        return Some("mvp_economy ranges must be finite and positive".to_owned());
    }
    None
}

// ---- the named scripts ------------------------------------------------------

/// From opening `k` on, the first reason why a strategy's barracks cannot go
/// up.
pub open spec fn openings_problem(c: &Content, s: &StrategyDef, k: int) -> Option<Seq<char>>
    decreases s.barracks@.len() - k,
{
    if k < 0 || k >= s.barracks@.len() {
        None
    } else {
        let o = s.barracks@[k];
        match c.building_pos(o.building@) {
            None => Some(about("strategy"@, s.id@, " opens unknown building `"@ + o.building@ + "`"@)),
            Some(b) => if c.buildings@[b].victory {
                Some(about("strategy"@, s.id@, " opens the victory target `"@ + o.building@ + "`"@))
            } else if !o.offset.finite_positive() {
                Some(about("strategy"@, s.id@, " has a barracks offset that is not finite and positive"@))
            } else {
                openings_problem(c, s, k + 1)
            },
        }
    }
}

/// Does one of the barracks a strategy opens train the unit?
pub open spec fn opened_for(c: &Content, s: &StrategyDef, unit: int, k: int) -> bool
    decreases s.barracks@.len() - k,
{
    if k < 0 || k >= s.barracks@.len() {
        false
    } else {
        let b = c.building_pos(s.barracks@[k].building@);
        (b is Some && c.can_produce(b->0, unit)) || opened_for(c, s, unit, k + 1)
    }
}

/// From entry `k` on, the first reason why a strategy's build order cannot be
/// trained at the barracks it opens.
pub open spec fn strategy_army_problem(c: &Content, s: &StrategyDef, k: int) -> Option<Seq<char>>
    decreases s.army@.len() - k,
{
    if k < 0 || k >= s.army@.len() {
        None
    } else {
        let item = s.army@[k];
        if item.count == 0 {
            Some(about("strategy"@, s.id@, " has army entry `"@ + item.unit@ + "` with count 0"@))
        } else {
            match c.unit_pos(item.unit@) {
                None => Some(about("strategy"@, s.id@, " names unknown unit `"@ + item.unit@ + "`"@)),
                Some(unit) => if !opened_for(c, s, unit, 0) {
                    Some(
                        about(
                            "strategy"@,
                            s.id@,
                            " names `"@ + item.unit@ + "`, which no barracks it opens can produce"@,
                        ),
                    )
                } else {
                    strategy_army_problem(c, s, k + 1)
                },
            }
        }
    }
}

/// The first reason why a strategy is not playable.
pub open spec fn strategy_problem(c: &Content, s: &StrategyDef) -> Option<Seq<char>> {
    if s.think_interval_ticks == 0 {
        Some(about("strategy"@, s.id@, " think_interval_ticks must be positive"@))
    } else if s.attack_interval_ticks == 0 {
        Some(about("strategy"@, s.id@, " attack_interval_ticks must be positive"@))
    } else if s.worker_target == 0 {
        Some(about("strategy"@, s.id@, " worker_target must be positive"@))
    } else if s.attack_at_army == 0 {
        Some(about("strategy"@, s.id@, " attack_at_army must be positive"@))
    } else if !(s.attack_spread.finite() && F32::zero().at_most(s.attack_spread)) {
        Some(about("strategy"@, s.id@, " attack_spread must be finite and non-negative"@))
    } else if s.barracks@.len() == 0 {
        Some(about("strategy"@, s.id@, " opens no barracks"@))
    } else if s.army@.len() == 0 {
        Some(about("strategy"@, s.id@, " army build order is empty"@))
    } else {
        or_else(
            openings_problem(c, s, 0),
            or_else(
                strategy_army_problem(c, s, 0),
                if script::army_size(s.army@) > u32::MAX {
                    Some(about("strategy"@, s.id@, " army counts overflow u32"@))
                } else {
                    None
                },
            ),
        )
    }
}

fn check_openings(c: &Content, s: &StrategyDef) -> (r: Option<String>)
    ensures
        seen(r) == openings_problem(c, s, 0),
{
    let mut k: usize = 0;
    while k < s.barracks.len()
        invariant
            k <= s.barracks@.len(),
            openings_problem(c, s, 0) == openings_problem(c, s, k as int),
        decreases s.barracks@.len() - k,
    {
        let o: &Opening = &s.barracks[k];
        match c.building_index(o.building.as_str()) {
            None => {
                let rest: String = text::cat3(" opens unknown building `", o.building.as_str(), "`");
                return Some(tell("strategy", s.id.as_str(), rest.as_str()));
            },
            Some(b) => {
                if c.buildings[b].victory {
                    let rest: String = text::cat3(
                        " opens the victory target `",
                        o.building.as_str(),
                        "`",
                    );
                    return Some(tell("strategy", s.id.as_str(), rest.as_str()));
                }
                if !o.offset.is_finite_positive() {
                    return Some(
                        tell(
                            "strategy",
                            s.id.as_str(),
                            " has a barracks offset that is not finite and positive",
                        ),
                    );
                }
            },
        }
        k = k + 1;
    }
    None
}

fn is_opened_for(c: &Content, s: &StrategyDef, unit: usize) -> (r: bool)
    ensures
        r == opened_for(c, s, unit as int, 0),
{
    let mut k: usize = 0;
    while k < s.barracks.len()
        invariant
            k <= s.barracks@.len(),
            opened_for(c, s, unit as int, 0) == opened_for(c, s, unit as int, k as int),
        decreases s.barracks@.len() - k,
    {
        match c.building_index(s.barracks[k].building.as_str()) {
            Some(b) => {
                if c.produces(b, unit) {
                    return true;
                }
            },
            None => {},
        }
        k = k + 1;
    }
    false
}

fn check_strategy_army(c: &Content, s: &StrategyDef) -> (r: Option<String>)
    ensures
        seen(r) == strategy_army_problem(c, s, 0),
{
    let mut k: usize = 0;
    while k < s.army.len()
        invariant
            k <= s.army@.len(),
            strategy_army_problem(c, s, 0) == strategy_army_problem(c, s, k as int),
        decreases s.army@.len() - k,
    {
        let item: &ArmyItem = &s.army[k];
        if item.count == 0 {
            let rest: String = text::cat3(" has army entry `", item.unit.as_str(), "` with count 0");
            return Some(tell("strategy", s.id.as_str(), rest.as_str()));
        }
        match c.unit_index(item.unit.as_str()) {
            None => {
                let rest: String = text::cat3(" names unknown unit `", item.unit.as_str(), "`");
                return Some(tell("strategy", s.id.as_str(), rest.as_str()));
            },
            Some(unit) => {
                if !is_opened_for(c, s, unit) {
                    let rest: String = text::cat3(
                        " names `",
                        item.unit.as_str(),
                        "`, which no barracks it opens can produce",
                    );
                    return Some(tell("strategy", s.id.as_str(), rest.as_str()));
                }
            },
        }
        k = k + 1;
    }
    None
}

fn check_strategy(c: &Content, s: &StrategyDef) -> (r: Option<String>)
    ensures
        seen(r) == strategy_problem(c, s),
{
    let id: &str = s.id.as_str();
    if s.think_interval_ticks == 0 {
        return Some(tell("strategy", id, " think_interval_ticks must be positive"));
    }
    if s.attack_interval_ticks == 0 {
        return Some(tell("strategy", id, " attack_interval_ticks must be positive"));
    }
    if s.worker_target == 0 {
        return Some(tell("strategy", id, " worker_target must be positive"));
    }
    if s.attack_at_army == 0 {
        return Some(tell("strategy", id, " attack_at_army must be positive"));
    }
    let zero: F32 = F32 { bits: 0 };
    if !(s.attack_spread.is_finite() && zero.le(&s.attack_spread)) {
        return Some(tell("strategy", id, " attack_spread must be finite and non-negative"));
    }
    if s.barracks.len() == 0 {
        return Some(tell("strategy", id, " opens no barracks"));
    }
    if s.army.len() == 0 {
        return Some(tell("strategy", id, " army build order is empty"));
    }
    let p: Option<String> = check_openings(c, s);
    if p.is_some() {
        return p;
    }
    let p: Option<String> = check_strategy_army(c, s);
    if p.is_some() {
        return p;
    }
    if s.cycle_len().is_none() {
        return Some(tell("strategy", id, " army counts overflow u32"));
    }
    None
}

pub open spec fn strategies_problem(c: &Content, k: int) -> Option<Seq<char>>
    decreases c.strategies@.len() - k,
{
    if k < 0 || k >= c.strategies@.len() {
        None
    } else {
        or_else(strategy_problem(c, &c.strategies@[k]), strategies_problem(c, k + 1))
    }
}

fn check_strategies(c: &Content) -> (r: Option<String>)
    ensures
        seen(r) == strategies_problem(c, 0),
{
    let mut k: usize = 0;
    while k < c.strategies.len()
        invariant
            k <= c.strategies@.len(),
            strategies_problem(c, 0) == strategies_problem(c, k as int),
        decreases c.strategies@.len() - k,
    {
        let s: Option<String> = check_strategy(c, &c.strategies[k]);
        if s.is_some() {
            return s;
        }
        k = k + 1;
    }
    None
}

/// Content that holds scripts names one of them as the default.
pub open spec fn default_problem(c: &Content) -> Option<Seq<char>> {
    if c.scripted() && c.strategy_pos(c.default_strategy@) is None {
        Some(about("default strategy"@, c.default_strategy@, " is not a strategy"@))
    } else {
        None
    }
}

// ---- the whole --------------------------------------------------------------

impl Content {
    /// The first reason why this content is not playable. `mult_shown` is the
    /// nemesis multiplier as people read it.
    pub open spec fn problem(&self, mult_shown: Seq<char>) -> Option<Seq<char>> {
        or_else(
            dup_problem("unit"@, lookup::unit_ids(self.units@)),
            or_else(
                dup_problem("building"@, lookup::building_ids(self.buildings@)),
                or_else(
                    dup_problem("resource"@, resource_ids(self.resources@)),
                    or_else(
                        buildings_problem(self, 0),
                        or_else(
                            units_problem(self, 0),
                            or_else(
                                combat_problem(&self.combat, &self.nemesis_bonus, mult_shown),
                                or_else(
                                    victory_problem(self),
                                    or_else(
                                        ai_problem(self),
                                        or_else(
                                            economy_problem(self),
                                            or_else(
                                                dup_problem(
                                                    "strategy"@,
                                                    lookup::strategy_ids(self.strategies@),
                                                ),
                                                or_else(
                                                    strategies_problem(self, 0),
                                                    default_problem(self),
                                                ),
                                            ),
                                        ),
                                    ),
                                ),
                            ),
                        ),
                    ),
                ),
            ),
        )
    }

    fn first_problem(&self, mult_shown: &str) -> (r: Option<String>)
        ensures
            seen(r) == self.problem(mult_shown@),
    {
        let p: Option<String> = check_dup("unit", &self.unit_id_list());
        if p.is_some() {
            return p;
        }
        let p: Option<String> = check_dup("building", &self.building_id_list());
        if p.is_some() {
            return p;
        }
        let p: Option<String> = check_dup("resource", &self.resource_id_list());
        if p.is_some() {
            return p;
        }
        let p: Option<String> = check_buildings(self);
        if p.is_some() {
            return p;
        }
        let p: Option<String> = check_units(self);
        if p.is_some() {
            return p;
        }
        let p: Option<String> = check_combat(&self.combat, &self.nemesis_bonus, mult_shown);
        if p.is_some() {
            return p;
        }
        let p: Option<String> = check_victory(self);
        if p.is_some() {
            return p;
        }
        let p: Option<String> = check_ai(self);
        if p.is_some() {
            return p;
        }
        let p: Option<String> = check_economy(self);
        if p.is_some() {
            return p;
        }
        let p: Option<String> = check_dup("strategy", &self.strategy_id_list());
        if p.is_some() {
            return p;
        }
        let p: Option<String> = check_strategies(self);
        if p.is_some() {
            return p;
        }
        if self.is_scripted() && self.strategy_index(self.default_strategy.as_str()).is_none() {
            return Some(
                tell("default strategy", self.default_strategy.as_str(), " is not a strategy"),
            );
        }
        None
    }

    /// Reject content the sim cannot run, with the first reason. `mult_shown`
    /// is the nemesis multiplier as people read it.
    pub fn validate(&self, mult_shown: &str) -> (r: Result<(), ContentError>)
        ensures
            r is Ok == self.problem(mult_shown@) is None,
            r matches Err(e) ==> e matches ContentError::Invalid { msg } && self.problem(
                mult_shown@,
            ) == Some(msg@),
    {
        match self.first_problem(mult_shown) {
            None => Ok(()),
            Some(msg) => Err(ContentError::Invalid { msg }),
        }
    }

    /// The ids of the units, in order.
    pub fn unit_id_list(&self) -> (r: Vec<String>)
        ensures
            text::views(r@) == lookup::unit_ids(self.units@),
    {
        let mut r: Vec<String> = Vec::new();
        let mut k: usize = 0;
        while k < self.units.len()
            invariant
                k <= self.units@.len(),
                r@.len() == k,
                forall|i: int| 0 <= i < k ==> (#[trigger] r@[i])@ == self.units@[i].id@,
            decreases self.units@.len() - k,
        {
            r.push(self.units[k].id.clone());
            k = k + 1;
        }
        assert(text::views(r@) =~= lookup::unit_ids(self.units@));
        r
    }

    /// The ids of the buildings, in order.
    pub fn building_id_list(&self) -> (r: Vec<String>)
        ensures
            text::views(r@) == lookup::building_ids(self.buildings@),
    {
        let mut r: Vec<String> = Vec::new();
        let mut k: usize = 0;
        while k < self.buildings.len()
            invariant
                k <= self.buildings@.len(),
                r@.len() == k,
                forall|i: int| 0 <= i < k ==> (#[trigger] r@[i])@ == self.buildings@[i].id@,
            decreases self.buildings@.len() - k,
        {
            r.push(self.buildings[k].id.clone());
            k = k + 1;
        }
        assert(text::views(r@) =~= lookup::building_ids(self.buildings@));
        r
    }

    /// The ids of the resources, in order.
    pub fn resource_id_list(&self) -> (r: Vec<String>)
        ensures
            text::views(r@) == resource_ids(self.resources@),
    {
        let mut r: Vec<String> = Vec::new();
        let mut k: usize = 0;
        while k < self.resources.len()
            invariant
                k <= self.resources@.len(),
                r@.len() == k,
                forall|i: int| 0 <= i < k ==> (#[trigger] r@[i])@ == self.resources@[i].id@,
            decreases self.resources@.len() - k,
        {
            r.push(self.resources[k].id.clone());
            k = k + 1;
        }
        assert(text::views(r@) =~= resource_ids(self.resources@));
        r
    }

    /// The ids of the strategies, in order.
    pub fn strategy_id_list(&self) -> (r: Vec<String>)
        ensures
            text::views(r@) == lookup::strategy_ids(self.strategies@),
    {
        let mut r: Vec<String> = Vec::new();
        let mut k: usize = 0;
        while k < self.strategies.len()
            invariant
                k <= self.strategies@.len(),
                r@.len() == k,
                forall|i: int| 0 <= i < k ==> (#[trigger] r@[i])@ == self.strategies@[i].id@,
            decreases self.strategies@.len() - k,
        {
            r.push(self.strategies[k].id.clone());
            k = k + 1;
        }
        assert(text::views(r@) =~= lookup::strategy_ids(self.strategies@));
        r
    }
}

} // verus!
