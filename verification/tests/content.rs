//! Tests of content: what is refused and why, the counter cycle, the match
//! outcome and the batch around it.

use onus::float::{Point, F32};
use onus::sim::content::{
    Acquisition, AiDef, ArmyItem, BuildingDef, CombatDef, Content, Cost, EconomyDef, NemesisBonus,
    Opening, ResourceDef, StrategyDef, UnitDef,
};
use onus::sim::UnitKind;
use onus::batch::{fixtures, record_of, roster, BatchSettings, MatchRecord, MatchResult, Watch};
use onus::headless::{base_of, Orientation};
use onus::metrics::WinMatrix;
use onus::pentagon::{mass_strategy, nemesis_cycle, CycleError, PentagonReport, Verdict};
use onus::sim::content::fingerprint::Fnv;
use onus::sim::content::{ContentError, ContentFingerprint};
use onus::sim::spatial::Faction;
use onus::sim::victory::{
    count_victory_buildings, match_end, match_running, match_watch, MatchOutcome, MatchState,
    Standing,
};

fn num(x: f32) -> F32 {
    F32 { bits: x.to_bits() }
}

fn point(x: f32, y: f32) -> Point {
    Point { x: num(x), y: num(y) }
}

fn unit(id: &str, name: &str, kind: UnitKind, stats: [u32; 4], nemesis: Option<&str>) -> UnitDef {
    let [offense, defense, armor, speed] = stats;
    let gathers = kind == UnitKind::Worker;
    UnitDef {
        id: id.to_string(),
        name: name.to_string(),
        source: if gathers { Some("hq".to_string()) } else { None },
        barracks: if gathers { None } else { Some("foundry".to_string()) },
        cost: Cost {
            resource: "alloy".to_string(),
            amount: 50,
        },
        mvp_kind: kind,
        mvp_alloy_cost: if gathers { 50 } else { 100 },
        mvp_train_ticks: if gathers { 60 } else { 120 },
        mvp_carry_capacity: if gathers { 10 } else { 0 },
        mvp_gather_ticks: if gathers { 30 } else { 0 },
        mvp_attack_ticks: if offense > 0 { 30 } else { 0 },
        mvp_attack_range: num(if offense > 0 { 40.0 } else { 0.0 }),
        speed,
        offense,
        defense,
        armor,
        nemesis: nemesis.map(|s| s.to_string()),
        gathers,
        builds: gathers,
    }
}

fn building(id: &str, produces: &[&str], victory: bool) -> BuildingDef {
    BuildingDef {
        id: id.to_string(),
        name: id.to_uppercase(),
        alloy_cost: 150,
        produces: produces.iter().map(|s| s.to_string()).collect(),
        dropoff: victory,
        victory,
        mvp_defense: 9,
        mvp_armor: 3,
    }
}

fn army() -> Vec<ArmyItem> {
    vec![
        ArmyItem {
            unit: "bulwark".to_string(),
            count: 2,
        },
        ArmyItem {
            unit: "ravager".to_string(),
            count: 1,
        },
    ]
}

fn strategy(id: &str) -> StrategyDef {
    StrategyDef {
        id: id.to_string(),
        think_interval_ticks: 15,
        worker_target: 5,
        barracks: vec![Opening {
            building: "foundry".to_string(),
            at_tick: 0,
            offset: num(120.0),
        }],
        army: army(),
        attack_at_army: 2,
        attack_interval_ticks: 300,
        attack_spread: num(30.0),
    }
}

/// A small roster with the stats that the tests speak of.
fn content() -> Content {
    Content {
        units: vec![
            unit("worker", "Worker", UnitKind::Worker, [0, 2, 0, 5], None),
            unit("bulwark", "Bulwark", UnitKind::Soldier, [4, 9, 9, 2], Some("ravager")),
            unit("ravager", "Ravager", UnitKind::Soldier, [7, 6, 4, 5], Some("sentinel")),
            unit("sentinel", "Sentinel", UnitKind::Scout, [5, 5, 5, 6], Some("arclight")),
            unit("arclight", "Arclight", UnitKind::Soldier, [9, 3, 1, 4], Some("bulwark")),
        ],
        buildings: vec![
            building("hq", &["worker"], true),
            building("foundry", &["bulwark", "ravager", "sentinel", "arclight"], false),
        ],
        combat: CombatDef {
            hp_per_defense: 20,
            damage_per_offense: 5,
            mitigation_per_armor: 2,
            speed_per_point: num(12.0),
            engage_range: num(150.0),
            max_stat: 10,
            building_hp_per_defense: 100,
            pursue_range: num(300.0),
        },
        nemesis_bonus: NemesisBonus {
            damage_mult: num(1.3),
            ignore_armor: true,
        },
        ai: AiDef {
            think_interval_ticks: 15,
            worker_target: 5,
            barracks: "foundry".to_string(),
            barracks_at_tick: 0,
            barracks_offset: num(120.0),
            army: army(),
            attack_at_army: 2,
            attack_interval_ticks: 300,
            attack_spread: num(30.0),
        },
        strategies: vec![strategy("standard"), strategy("rush")],
        default_strategy: "standard".to_string(),
        resources: vec![ResourceDef {
            id: "alloy".to_string(),
            name: "Alloy".to_string(),
            domain: "ground".to_string(),
            building: "hq".to_string(),
            acquisition: Acquisition::Mined,
            powers: vec!["units".to_string()],
        }],
        mvp_active: vec!["alloy".to_string()],
        economy: EconomyDef {
            currency: "alloy".to_string(),
            starting_alloy: 200,
            gather_range: num(20.0),
            deposit_range: num(40.0),
        },
    }
}

/// The reason that content changed by `f` is refused for.
fn refusal(f: fn(&mut Content)) -> String {
    let mut c = content();
    f(&mut c);
    match c.validate("1.3") {
        Ok(()) => "accepted".to_string(),
        Err(ContentError::Invalid { msg }) => msg,
        Err(other) => panic!("{other:?}"),
    }
}

#[test]
fn every_rule_has_its_reason() {
    let table: Vec<(fn(&mut Content), &str)> = vec![
        (|_| {}, "accepted"),
        (|c| c.buildings[1].alloy_cost = 0, "building `foundry` has no Alloy cost"),
        (
            |c| c.buildings[1].mvp_defense = 0,
            "building `foundry` has no HP pool (mvp_defense 0)",
        ),
        (
            |c| c.buildings[0].mvp_armor = 11,
            "building `hq` has mvp_armor 11, above the design scale max 10",
        ),
        (
            |c| c.buildings[0].produces.push("tank".to_string()),
            "building `hq` produces unknown unit `tank`",
        ),
        (|c| c.units[0].mvp_alloy_cost = 0, "unit `worker` has no Alloy cost"),
        (|c| c.units[0].mvp_train_ticks = 0, "unit `worker` has no training time"),
        (
            |c| c.units[0].mvp_gather_ticks = 0,
            "unit `worker` gathers but declares no mvp_carry_capacity / mvp_gather_ticks",
        ),
        (
            |c| c.buildings[0].produces.clear(),
            "unit `worker` has no producing building",
        ),
        (
            |c| c.units[2].speed = 12,
            "unit `ravager` has speed 12, above the design scale max 10",
        ),
        (|c| c.units[2].defense = 0, "unit `ravager` has no HP pool (defense 0)"),
        (|c| c.units[2].speed = 0, "unit `ravager` cannot move (speed 0)"),
        (
            |c| c.units[2].mvp_attack_ticks = 0,
            "unit `ravager` has offense but no attack cadence",
        ),
        (
            |c| c.units[2].mvp_attack_range = num(f32::NAN),
            "unit `ravager` has offense but no attack range",
        ),
        (
            |c| c.units[2].mvp_attack_range = num(151.0),
            "unit `ravager` reaches further than it will chase",
        ),
        (
            |c| c.units[0].mvp_attack_ticks = 3,
            "unit `worker` has no offense but declares attack data",
        ),
        (
            |c| c.units[3].nemesis = Some("x".to_string()),
            "unit `sentinel` names unknown nemesis `x`",
        ),
        (
            |c| c.combat.building_hp_per_defense = 0,
            "mvp_combat building_hp_per_defense must be positive",
        ),
        (
            |c| c.combat.mitigation_per_armor = 0,
            "mvp_combat scaling factors must be positive",
        ),
        (
            |c| c.combat.speed_per_point = num(f32::INFINITY),
            "mvp_combat speed_per_point must be finite and positive",
        ),
        (
            |c| c.combat.engage_range = num(f32::INFINITY),
            "mvp_combat engage_range must be finite and positive",
        ),
        (
            |c| c.combat.pursue_range = num(f32::NAN),
            "mvp_combat pursue_range must be finite",
        ),
        (
            |c| c.combat.pursue_range = num(149.0),
            "mvp_combat pursue_range must be >= engage_range",
        ),
        (
            |c| c.nemesis_bonus.damage_mult = num(0.5),
            "nemesis_bonus.damage_mult must be finite and >= 1.0",
        ),
        (
            |c| c.combat.hp_per_defense = u32::MAX,
            "mvp_combat scaling overflows the sim's u32 arithmetic: peak HP pool at max_stat 10 is 42949672950",
        ),
        (
            |c| c.buildings[0].victory = false,
            "exactly one building must be the victory target; found []",
        ),
        (
            |c| c.ai.think_interval_ticks = 0,
            "mvp_ai think_interval_ticks must be positive",
        ),
        (
            |c| c.ai.attack_interval_ticks = 0,
            "mvp_ai attack_interval_ticks must be positive",
        ),
        (|c| c.ai.worker_target = 0, "mvp_ai worker_target must be positive"),
        (|c| c.ai.attack_at_army = 0, "mvp_ai attack_at_army must be positive"),
        (
            |c| c.ai.barracks_offset = num(-1.0),
            "mvp_ai barracks_offset must be finite and positive",
        ),
        (
            |c| c.ai.attack_spread = num(-1.0),
            "mvp_ai attack_spread must be finite and non-negative",
        ),
        (
            |c| c.ai.barracks = "shed".to_string(),
            "mvp_ai barracks `shed` is not a building",
        ),
        (
            |c| c.ai.barracks = "hq".to_string(),
            "mvp_ai barracks `hq` is the victory target, not a placeable barracks",
        ),
        (|c| c.ai.army.clear(), "mvp_ai army build order is empty"),
        (|c| c.ai.army[0].count = 0, "mvp_ai army entry `bulwark` has count 0"),
        (
            |c| c.ai.army[0].unit = "x".to_string(),
            "mvp_ai army names unknown unit `x`",
        ),
        (
            |c| c.ai.army[0].unit = "worker".to_string(),
            "mvp_ai army names `worker`, which `foundry` cannot produce",
        ),
        (|c| c.ai.army[0].count = u32::MAX, "mvp_ai army counts overflow u32"),
        (
            |c| c.economy.currency = "gold".to_string(),
            "mvp_economy currency `gold` is not a declared resource",
        ),
        (
            |c| c.economy.deposit_range = num(0.0),
            "mvp_economy ranges must be finite and positive",
        ),
    ];
    for (f, expected) in table {
        assert_eq!(refusal(f), expected);
    }
}

#[test]
fn a_multiplier_beyond_per_mille_is_refused_as_it_is_shown() {
    let mut c = content();
    c.nemesis_bonus.damage_mult = num(5.0e6);
    assert_eq!(
        c.validate("5000000").unwrap_err().message(),
        "invalid content: nemesis_bonus.damage_mult 5000000 cannot be held as an integer per-mille (round(mult * 1000) must fit u32)"
    );
}

#[test]
fn load_errors_read_as_text() {
    let io = ContentError::Io {
        path: "a/units.ron".to_string(),
        msg: "gone".to_string(),
    };
    assert_eq!(io.message(), "cannot read a/units.ron: gone");
    let parse = ContentError::Parse {
        path: "a/units.ron".to_string(),
        msg: "3:4: eh".to_string(),
    };
    assert_eq!(parse.message(), "cannot parse a/units.ron: 3:4: eh");
}

#[test]
fn the_id_lists_follow_the_files() {
    let c = content();
    assert_eq!(c.strategy_id_list(), vec!["standard", "rush"]);
    assert_eq!(c.building_id_list(), vec!["hq", "foundry"]);
    assert_eq!(c.resource_id_list(), vec!["alloy"]);
    assert_eq!(c.unit_id_list().len(), 5);
    assert_eq!(c.building("foundry").unwrap().alloy_cost, 150);
}

// ---- the counter cycle ------------------------------------------------------

#[test]
fn the_cycle_is_derived_from_the_links() {
    let c = content();
    assert_eq!(
        nemesis_cycle(&c).unwrap(),
        vec!["bulwark", "ravager", "sentinel", "arclight"]
    );
}

#[test]
fn broken_cycles_are_told_apart() {
    let find = |f: fn(&mut Content)| {
        let mut c = content();
        f(&mut c);
        nemesis_cycle(&c).unwrap_err()
    };
    let none = find(|c| {
        for u in c.units.iter_mut() {
            u.nemesis = None;
        }
    });
    assert_eq!(none.message(), "no unit names a nemesis: there is no counter cycle");
    let own = find(|c| c.units[1].nemesis = Some("bulwark".to_string()));
    assert_eq!(own.message(), "unit `bulwark` is its own nemesis");
    let unknown = find(|c| c.units[1].nemesis = Some("x".to_string()));
    assert_eq!(unknown.message(), "unit `bulwark` names unknown nemesis `x`");
    let open = find(|c| c.units[4].nemesis = None);
    assert_eq!(
        open.message(),
        "the nemesis chain does not close: `arclight` has no nemesis"
    );
    let lasso = find(|c| c.units[4].nemesis = Some("sentinel".to_string()));
    assert_eq!(
        lasso.message(),
        "the nemesis chain re-enters itself at `sentinel`, forming a lasso"
    );
    let partial = find(|c| c.units[2].nemesis = Some("bulwark".to_string()));
    assert!(matches!(partial, CycleError::Partial { .. }));
    assert_eq!(
        partial.message(),
        "the nemesis chain closes over [\"bulwark\", \"ravager\"] but leaves [\"sentinel\", \"arclight\"] out"
    );
}

#[test]
fn listed_names_are_shown_escaped() {
    let mut c = content();
    c.units[1].id = "bul\"wark\n".to_string();
    c.units[2].nemesis = Some("bul\"wark\n".to_string());
    c.units[4].nemesis = Some("sentinel".to_string());
    let shown = nemesis_cycle(&c).unwrap_err().message();
    assert!(shown.starts_with("the nemesis chain closes over [\"bul\\\"wark\\n\", \"ravager\"]"), "{shown}");
}

fn record(a: &str, b: &str, result: MatchResult) -> MatchRecord {
    MatchRecord {
        strategies: [a.to_string(), b.to_string()],
        seed: 1,
        result,
        orientation: Orientation::Normal,
        ticks: 10,
    }
}

/// The small roster with one strategy per combat unit.
fn massed() -> Content {
    let mut c = content();
    c.strategies = ["bulwark", "ravager", "sentinel", "arclight"]
        .iter()
        .map(|u| {
            let mut s = strategy(&format!("mass_{u}"));
            s.army = vec![ArmyItem {
                unit: u.to_string(),
                count: 1,
            }];
            s
        })
        .collect();
    c.default_strategy = "mass_bulwark".to_string();
    c
}

#[test]
fn each_link_carries_its_own_verdict() {
    let c = massed();
    assert_eq!(mass_strategy(&c, "ravager").unwrap().id, "mass_ravager");
    assert!(mass_strategy(&c, "worker").is_none());
    let records = vec![
        record("mass_bulwark", "mass_ravager", MatchResult::Decided(Faction::A)),
        record("mass_ravager", "mass_sentinel", MatchResult::Decided(Faction::B)),
        record("mass_sentinel", "mass_arclight", MatchResult::Timeout),
    ];
    let report = PentagonReport::of_records(&c, &records).unwrap();
    let verdicts: Vec<Verdict> = report.links().iter().map(|l| l.verdict).collect();
    assert_eq!(
        verdicts,
        vec![Verdict::Holds, Verdict::Fails, Verdict::Undefined, Verdict::Undefined]
    );
    assert_eq!((report.holding(), report.failing(), report.undefined(), report.gaps()), (1, 1, 2, 0));
    assert!(!report.all_hold());
    let rate = report.links()[0].rate.unwrap();
    assert_eq!(f64::from_bits(rate.bits), 1.0);
    // Without a strategy that masses a unit its links are gaps.
    let report = PentagonReport::of_records(&content(), &records).unwrap();
    assert_eq!(report.gaps(), 4);
    assert_eq!(
        report.missing_strategies(),
        vec!["bulwark", "ravager", "sentinel", "arclight"]
    );
}

#[test]
fn a_link_without_a_rate_shows_dashes() {
    let records = vec![
        record("mass_bulwark", "mass_ravager", MatchResult::Decided(Faction::A)),
        record("mass_sentinel", "mass_arclight", MatchResult::Timeout),
    ];
    let report = PentagonReport::of_records(&massed(), &records).unwrap();
    let read = |bits: u64| format!("{:>5.1}%", 100.0 * f64::from_bits(bits));
    let rates: Vec<String> = report
        .links()
        .iter()
        .map(|l| l.rate.map(|r| read(r.bits)).unwrap_or("no rate".to_string()))
        .collect();
    let mut expected = String::new();
    for l in report.links() {
        let rate = l.rate.map(|r| read(r.bits)).unwrap_or("   -- ".to_string());
        expected += &format!(
            "  {:>8} > {:<8} {rate}  {:>3} decided, {} timeouts  {}\n",
            l.predator,
            l.prey,
            l.n_decided,
            l.n_timeout,
            l.verdict.label(),
        );
    }
    assert!(expected.starts_with("   bulwark > ravager  100.0%    1 decided, 0 timeouts  "));
    assert!(expected.contains("sentinel > arclight    --     0 decided, 1 timeouts  "));
    expected += "  1 of 4 predicted counters hold";
    assert_eq!(report.table(&rates), expected);
}

#[test]
fn a_matrix_reads_who_met_whom_and_how_it_ended() {
    let records = vec![
        record("a", "b", MatchResult::Decided(Faction::A)),
        record("b", "c", MatchResult::Decided(Faction::B)),
        record("c", "a", MatchResult::MutualLoss),
        record("a", "b", MatchResult::Timeout),
        record("b", "a", MatchResult::Decided(Faction::A)),
        record("c", "c", MatchResult::Decided(Faction::B)),
    ];
    let mut shuffled: Vec<MatchRecord> = Vec::new();
    for k in [4usize, 1, 5, 0, 3, 2] {
        let mut r = records[k].clone();
        r.seed += 100 + k as u64;
        r.ticks += 7;
        r.orientation = Orientation::Swapped;
        shuffled.push(r);
    }
    let (m, n) = (WinMatrix::of(&records), WinMatrix::of(&shuffled));
    assert_ne!(m.ids(), n.ids(), "another order of the rows");
    for row in ["a", "b", "c", "nobody"] {
        for col in ["a", "b", "c", "nobody"] {
            assert_eq!(m.get(row, col), n.get(row, col), "{row} {col}");
        }
    }
    for id in ["a", "b", "c"] {
        let (x, y) = (m.row_mean(m.index(id).unwrap()), n.row_mean(n.index(id).unwrap()));
        assert_eq!((x.mean, x.cells), (y.mean, y.cells));
    }
    // A match between two strategies says the same from either slot.
    let mut exchanged = records.clone();
    exchanged[0] = record("b", "a", MatchResult::Decided(Faction::B));
    let x = WinMatrix::of(&exchanged);
    for row in ["a", "b", "c"] {
        for col in ["a", "b", "c"] {
            assert_eq!(m.get(row, col), x.get(row, col), "{row} {col}");
        }
    }
    let a = m.row_mean(m.index("a").unwrap());
    assert_eq!((a.mean.map(|f| f64::from_bits(f.bits)), a.cells), (Some(0.5), 2));
}

#[test]
fn content_without_scripts_is_taken_as_it_is() {
    let mut c = content();
    assert!(c.is_scripted());
    let scripted = c.fingerprint().hash();
    c.strategies.clear();
    // A default that is not listed is refused, one that is not named is not.
    assert_eq!(
        c.validate("2").unwrap_err().message(),
        "invalid content: default strategy `standard` is not a strategy"
    );
    let named = c.fingerprint().hash();
    c.default_strategy.clear();
    assert!(!c.is_scripted());
    assert!(c.validate("2").is_ok());
    let bare = c.fingerprint().hash();
    assert!(scripted != named && named != bare && bare != scripted);
}

#[test]
fn a_hasher_reports_its_state_and_never_unknown() {
    let mut h = Fnv::new();
    assert_eq!(h.finish(), 0xcbf2_9ce4_8422_2325);
    h.u64(0x61);
    assert_eq!(h.finish(), 0xaf63_dc4c_8601_ec8c);
    assert_eq!(h.finish(), 0xaf63_dc4c_8601_ec8c, "reporting changes nothing");
    // The word that is the state itself leads to zero, which is reported as one.
    h.u64(0xaf63_dc4c_8601_ec8c);
    assert_eq!(h.finish(), 1);
    assert_ne!(h.finish(), ContentFingerprint::UNKNOWN);
}

#[test]
fn one_changed_value_changes_the_fingerprint() {
    let base = content();
    let hash = base.fingerprint().hash();
    assert_eq!(content().fingerprint().hash(), hash, "equal content, equal fingerprint");
    let mut changed: Vec<Content> = Vec::new();
    let mut c = content();
    c.units[1].cost.amount += 1;
    changed.push(c);
    let mut c = content();
    c.units[0].builds = !c.units[0].builds;
    changed.push(c);
    let mut c = content();
    c.buildings[0].mvp_armor += 1;
    changed.push(c);
    let mut c = content();
    c.combat.engage_range = num(f32::from_bits(c.combat.engage_range.bits + 1));
    changed.push(c);
    let mut c = content();
    c.nemesis_bonus.ignore_armor = !c.nemesis_bonus.ignore_armor;
    changed.push(c);
    let mut c = content();
    c.ai.attack_at_army += 1;
    changed.push(c);
    let mut c = content();
    c.economy.starting_alloy += 1;
    changed.push(c);
    let mut c = content();
    c.strategies[0].think_interval_ticks += 1;
    changed.push(c);
    let mut seen = vec![hash];
    for c in changed {
        let h = c.fingerprint().hash();
        assert!(!seen.contains(&h));
        seen.push(h);
    }
}

#[test]
fn rates_of_a_pair_add_up_to_one() {
    let m = WinMatrix::of(&[
        record("a", "b", MatchResult::Decided(Faction::A)),
        record("b", "a", MatchResult::Decided(Faction::A)),
        record("a", "b", MatchResult::MutualLoss),
        record("a", "b", MatchResult::Decided(Faction::A)),
        record("a", "b", MatchResult::Timeout),
    ]);
    let (a, b) = (m.index("a").unwrap(), m.index("b").unwrap());
    assert_eq!(m.rate(a, b).map(|r| f64::from_bits(r.bits)), Some(0.625));
    assert_eq!(m.rate(b, a).map(|r| f64::from_bits(r.bits)), Some(0.375));
    assert_eq!(m.get("a", "b").unwrap().n_timeout, 1);
    assert_eq!(m.diagonal(a), None);
    assert_eq!((m.decided(), m.timeouts()), (4, 1));
    assert_eq!(f64::from_bits(m.row_mean(a).mean.unwrap().bits), 0.625);
}

// ---- the outcome of a match -------------------------------------------------

fn standing(def: usize, faction: Faction) -> Standing {
    Standing { def, faction }
}

#[test]
fn a_match_ends_once_it_was_contested() {
    let c = content();
    let both = vec![standing(0, Faction::A), standing(0, Faction::B), standing(1, Faction::B)];
    let one = vec![standing(1, Faction::A), standing(0, Faction::B)];
    assert_eq!(count_victory_buildings(&c, &both), [1, 1]);
    // Never contested: nothing is decided.
    let mut s = MatchState::default();
    match_watch(&c, &mut s, &one);
    match_end(&c, &mut s, &one);
    assert!(match_running(&s));
    assert_eq!(s.tick(), 1);
    // Contested, then one side is gone.
    match_watch(&c, &mut s, &both);
    assert!(s.engaged());
    match_end(&c, &mut s, &both);
    assert!(!s.is_over());
    match_end(&c, &mut s, &one);
    assert_eq!(
        s.outcome(),
        Some(MatchOutcome {
            winner: Some(Faction::B),
            tick: 2
        })
    );
    // Both on one tick: nobody won.
    let mut d = MatchState::default();
    match_watch(&c, &mut d, &both);
    match_end(&c, &mut d, &vec![]);
    assert_eq!(d.outcome().unwrap().winner, None);
}

#[test]
fn bases_stand_mirrored() {
    assert_eq!(base_of(Faction::A, Orientation::Normal), -750);
    assert_eq!(base_of(Faction::B, Orientation::Normal), 750);
    assert_eq!(base_of(Faction::A, Orientation::Swapped), 750);
}

#[test]
fn a_watched_match_becomes_a_record() {
    let c = content();
    let mut w = Watch::new(2);
    assert!(w.running());
    w.observe(None);
    assert!(w.running());
    w.observe(Some(MatchOutcome {
        winner: None,
        tick: 1,
    }));
    assert!(!w.running());
    let r = record_of(&c, &[Some("rush".to_string()), None], 9, Orientation::Swapped, &w);
    assert_eq!(r.strategies, ["rush".to_string(), "standard".to_string()]);
    assert_eq!((r.result, r.ticks, r.seed), (MatchResult::MutualLoss, 2, 9));
    let mut t = Watch::new(1);
    t.observe(None);
    assert!(!t.running());
    assert_eq!(t.result, MatchResult::Timeout);
}

#[test]
fn a_batch_plays_every_matchup_in_both_orientations() {
    let c = content();
    assert_eq!(roster(&c, None).unwrap(), vec!["standard", "rush"]);
    assert_eq!(roster(&c, Some(&vec!["rush".to_string()])).unwrap(), vec!["rush"]);
    let err = roster(&c, Some(&vec!["x".to_string()])).unwrap_err();
    assert_eq!((err.id.as_str(), err.faction), ("x", None));
    let all = fixtures(&roster(&c, None).unwrap(), &BatchSettings::default().with_seeds(3));
    assert_eq!(all.len(), 2 * 2 * 3 * 2);
    for pair in all.chunks(2) {
        assert_eq!((&pair[0].a, &pair[0].b, pair[0].seed), (&pair[1].a, &pair[1].b, pair[1].seed));
        assert_ne!(pair[0].orientation, pair[1].orientation);
    }
}
