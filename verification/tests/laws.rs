//! The library's laws, on concrete values.

use onus::float::{Point, F32};
use onus::sim::content::{
    Acquisition, AiDef, ArmyItem, BuildingDef, CombatDef, Content, Cost, EconomyDef, NemesisBonus,
    Opening, ResourceDef, StrategyDef, UnitDef,
};
use onus::sim::UnitKind;
use onus::batch::{seed_at, MatchRecord, MatchResult, Tally};
use onus::client::{half_extent, unit_size, RESOURCE_SIZE};
use onus::headless::Orientation;
use onus::metrics::WinMatrix;
use onus::net::{Frame, NetConfig, NetLink, PROTOCOL_VERSION};
use onus::ratio::{divide32, ratio64};
use onus::sim::command::{apply_commands, Effect};
use onus::sim::economy::Stockpiles;
use onus::sim::orders::{CommandTick, Order, OrderQueue, SignedOrder};
use onus::sim::pathfind::{astar, FlowField, TileGrid};
use onus::sim::registry::SimIds;
use onus::sim::replay::{CommandFate, CommandLog, TickGate};
use onus::sim::spatial::{finalize, Faction, SplitMix64};
use onus::sim::victory::{count_victory_buildings, Standing};
use onus::sim::world::{Entity, Row, World};
use onus::text::{decimal, join};

fn num(x: f32) -> F32 {
    F32 { bits: x.to_bits() }
}

fn point(x: f32, y: f32) -> Point {
    Point { x: num(x), y: num(y) }
}

fn unit(id: &str, name: &str, kind: UnitKind, stats: [u32; 4], nemesis: Option<&str>) -> UnitDef {
    let [offense, defense, armor, speed] = stats;
    let gathers = kind == UnitKind::Worker;
    UnitDef {
        id: id.to_string(),
        name: name.to_string(),
        source: if gathers { Some("hq".to_string()) } else { None },
        barracks: if gathers { None } else { Some("foundry".to_string()) },
        cost: Cost {
            resource: "alloy".to_string(),
            amount: 50,
        },
        mvp_kind: kind,
        mvp_alloy_cost: if gathers { 50 } else { 100 },
        mvp_train_ticks: if gathers { 60 } else { 120 },
        mvp_carry_capacity: if gathers { 10 } else { 0 },
        mvp_gather_ticks: if gathers { 30 } else { 0 },
        mvp_attack_ticks: if offense > 0 { 30 } else { 0 },
        mvp_attack_range: num(if offense > 0 { 40.0 } else { 0.0 }),
        speed,
        offense,
        defense,
        armor,
        nemesis: nemesis.map(|s| s.to_string()),
        gathers,
        builds: gathers,
    }
}

fn building(id: &str, produces: &[&str], victory: bool) -> BuildingDef {
    BuildingDef {
        id: id.to_string(),
        name: id.to_uppercase(),
        alloy_cost: 150,
        produces: produces.iter().map(|s| s.to_string()).collect(),
        dropoff: victory,
        victory,
        mvp_defense: 9,
        mvp_armor: 3,
    }
}

fn army() -> Vec<ArmyItem> {
    vec![
        ArmyItem {
            unit: "bulwark".to_string(),
            count: 2,
        },
        ArmyItem {
            unit: "ravager".to_string(),
            count: 1,
        },
    ]
}

fn strategy(id: &str) -> StrategyDef {
    StrategyDef {
        id: id.to_string(),
        think_interval_ticks: 15,
        worker_target: 5,
        barracks: vec![Opening {
            building: "foundry".to_string(),
            at_tick: 0,
            offset: num(120.0),
        }],
        army: army(),
        attack_at_army: 2,
        attack_interval_ticks: 300,
        attack_spread: num(30.0),
    }
}

/// A small roster with the stats that the tests speak of.
fn content() -> Content {
    Content {
        units: vec![
            unit("worker", "Worker", UnitKind::Worker, [0, 2, 0, 5], None),
            unit("bulwark", "Bulwark", UnitKind::Soldier, [4, 9, 9, 2], Some("ravager")),
            unit("ravager", "Ravager", UnitKind::Soldier, [7, 6, 4, 5], Some("sentinel")),
            unit("sentinel", "Sentinel", UnitKind::Scout, [5, 5, 5, 6], Some("arclight")),
            unit("arclight", "Arclight", UnitKind::Soldier, [9, 3, 1, 4], Some("bulwark")),
        ],
        buildings: vec![
            building("hq", &["worker"], true),
            building("foundry", &["bulwark", "ravager", "sentinel", "arclight"], false),
        ],
        combat: CombatDef {
            hp_per_defense: 20,
            damage_per_offense: 5,
            mitigation_per_armor: 2,
            speed_per_point: num(12.0),
            engage_range: num(150.0),
            max_stat: 10,
            building_hp_per_defense: 100,
            pursue_range: num(300.0),
        },
        nemesis_bonus: NemesisBonus {
            damage_mult: num(1.3),
            ignore_armor: true,
        },
        ai: AiDef {
            think_interval_ticks: 15,
            worker_target: 5,
            barracks: "foundry".to_string(),
            barracks_at_tick: 0,
            barracks_offset: num(120.0),
            army: army(),
            attack_at_army: 2,
            attack_interval_ticks: 300,
            attack_spread: num(30.0),
        },
        strategies: vec![strategy("standard"), strategy("rush")],
        default_strategy: "standard".to_string(),
        resources: vec![ResourceDef {
            id: "alloy".to_string(),
            name: "Alloy".to_string(),
            domain: "ground".to_string(),
            building: "hq".to_string(),
            acquisition: Acquisition::Mined,
            powers: vec!["units".to_string()],
        }],
        mvp_active: vec!["alloy".to_string()],
        economy: EconomyDef {
            currency: "alloy".to_string(),
            starting_alloy: 200,
            gather_range: num(20.0),
            deposit_range: num(40.0),
        },
    }
}

#[test]
fn comparisons_are_those_of_the_numbers() {
    let samples = [
        0.0f32,
        -0.0,
        1.0,
        -1.0,
        0.3,
        -0.3,
        f32::MIN_POSITIVE,
        1.0e-45,
        -1.0e-45,
        f32::MAX,
        f32::MIN,
        f32::INFINITY,
        f32::NEG_INFINITY,
        f32::NAN,
    ];
    for a in samples {
        for b in samples {
            assert_eq!(num(a).lt(&num(b)), a < b, "{a} {b}");
            assert_eq!(num(a).le(&num(b)), a <= b, "{a} {b}");
            assert_eq!(num(a).num_eq(&num(b)), a == b, "{a} {b}");
        }
        assert_eq!(num(a).is_nan(), a.is_nan());
        assert_eq!(num(a).is_finite(), a.is_finite());
        assert_eq!(num(a).is_finite_positive(), a.is_finite() && a > 0.0);
    }
}

#[test]
fn quotients_are_rounded_as_division_rounds_them() {
    for (n, d) in [
        (0u64, 3u64),
        (1, 3),
        (2, 3),
        (12_345, 60),
        (4_294_967_295, 60),
        (7, 4_294_967_295),
        (16_777_217, 16_777_219),
        (33_554_433, 3),
        (u64::MAX, 1),
        (1, u64::MAX),
        (u64::MAX, u64::MAX - 1),
        (9_223_372_036_854_775_809, 1_099_511_627_777),
    ] {
        let expected = n as f32 / d as f32;
        assert_eq!(f32::from_bits(divide32(n, d).bits), expected, "{n}/{d}");
    }
    assert_eq!(f64::from_bits(ratio64(2, 3).bits), 2.0f64 / 3.0);
}

#[test]
fn hit_boxes_are_half_as_wide_as_they_look() {
    for k in [UnitKind::Worker, UnitKind::Soldier, UnitKind::Scout] {
        assert_eq!(f32::from_bits(half_extent(Some(k)).bits), unit_size(k) as f32 * 0.5);
    }
    assert_eq!(f32::from_bits(half_extent(None).bits), RESOURCE_SIZE as f32 * 0.5);
}

#[test]
fn draws_do_not_repeat() {
    let mut r = SplitMix64::new(99);
    let mut seen: Vec<u64> = (0..5000).map(|_| r.next_u64()).collect();
    seen.sort_unstable();
    seen.dedup();
    assert_eq!(seen.len(), 5000);
    assert_ne!(finalize(1), finalize(2));
    assert_ne!(SplitMix64::new(1).next_u64(), SplitMix64::new(2).next_u64());
}

#[test]
fn seeds_of_a_batch_are_a_stream() {
    let mut r = SplitMix64::new(42);
    let stream: Vec<u64> = (0..6).map(|_| r.next_u64()).collect();
    let seeds: Vec<u64> = (0..6).map(|k| seed_at(42, k)).collect();
    assert_eq!(seeds, stream);
}

#[test]
fn numerals_of_different_numbers_differ() {
    assert_eq!(decimal(0), "0");
    assert_eq!(decimal(u64::MAX), "18446744073709551615");
    assert_ne!(decimal(10), decimal(1));
    assert_eq!(join(&vec!["a".to_string(), "b".to_string()], ", "), "a, b");
}

// ---- batches ----------------------------------------------------------------

fn record(a: &str, b: &str, result: MatchResult, orientation: Orientation) -> MatchRecord {
    MatchRecord {
        strategies: [a.to_string(), b.to_string()],
        seed: 1,
        result,
        orientation,
        ticks: 10,
    }
}

fn some_records() -> Vec<MatchRecord> {
    vec![
        record("a", "b", MatchResult::Decided(Faction::A), Orientation::Normal),
        record("a", "b", MatchResult::Decided(Faction::B), Orientation::Swapped),
        record("b", "a", MatchResult::Decided(Faction::A), Orientation::Normal),
        record("b", "a", MatchResult::MutualLoss, Orientation::Swapped),
        record("a", "a", MatchResult::Decided(Faction::B), Orientation::Normal),
        record("b", "b", MatchResult::Timeout, Orientation::Swapped),
    ]
}

#[test]
fn a_tally_adds_up() {
    let t = Tally::of(&some_records());
    assert_eq!(t.total, t.decided + t.mutual_losses + t.timeouts);
    assert_eq!(t.decided, t.wins[0] + t.wins[1]);
    assert_eq!(t.decided, t.spawn_wins[0] + t.spawn_wins[1]);
    assert_eq!(t.total, t.by_orientation[0].total + t.by_orientation[1].total);
    assert_eq!(t.lengths.len(), t.total);
}

#[test]
fn slots_do_not_reach_a_rate() {
    let turned: Vec<MatchRecord> = some_records()
        .into_iter()
        .map(|r| {
            let [a, b] = r.strategies.clone();
            MatchRecord {
                strategies: [b, a],
                result: match r.result {
                    MatchResult::Decided(Faction::A) => MatchResult::Decided(Faction::B),
                    MatchResult::Decided(Faction::B) => MatchResult::Decided(Faction::A),
                    other => other,
                },
                ..r
            }
        })
        .collect();
    let (m, n) = (WinMatrix::of(&some_records()), WinMatrix::of(&turned));
    for x in ["a", "b"] {
        for y in ["a", "b"] {
            let (p, q) = (m.get(x, y).unwrap(), n.get(x, y).unwrap());
            assert_eq!(p.n_timeout, q.n_timeout);
            if x != y {
                assert_eq!(p, q, "{x} {y}");
            }
        }
    }
    let mean = m.row_mean(m.index("a").unwrap()).mean;
    assert_eq!(mean, n.row_mean(n.index("a").unwrap()).mean);
}

// ---- paths ------------------------------------------------------------------

#[test]
fn the_way_back_is_as_long_as_the_way() {
    let origin = point(0.0, 0.0);
    let g = TileGrid::random(12, 12, num(1.0), origin, num(0.3), 4);
    let cells: Vec<usize> = (0..g.len()).filter(|c| g.is_walkable(*c)).collect();
    let (mut reached, mut cut_off) = (0, 0);
    for &a in cells.iter().step_by(7) {
        for &b in cells.iter().step_by(5) {
            let there = astar(&g, a, b).map(|p| p.len() as u64);
            assert_eq!(there, astar(&g, b, a).map(|p| p.len() as u64));
            let field = FlowField::compute(&g, b);
            assert_eq!(field.distance(a).map(|d| d as u64 + 1), there);
            assert_eq!(field.is_reachable(a), there.is_some());
            assert_eq!(field.has_direction(a), there.is_some() && a != b);
            match there {
                Some(n) => {
                    reached += 1;
                    assert!(g.manhattan(a, b) < n);
                }
                None => cut_off += 1,
            }
        }
    }
    assert!(reached > 0, "{reached} {cut_off}");
    for c in 0..g.len() {
        let (x, y) = g.xy(c);
        assert_eq!(g.idx(x, y), c);
    }
}

// ---- matches ----------------------------------------------------------------

#[test]
fn standing_buildings_are_counted_in_any_order() {
    let c = content();
    let rows = vec![
        Standing { def: 0, faction: Faction::A },
        Standing { def: 1, faction: Faction::A },
        Standing { def: 0, faction: Faction::B },
        Standing { def: 9, faction: Faction::B },
    ];
    let mut turned = rows.clone();
    turned.reverse();
    assert_eq!(count_victory_buildings(&c, &rows), [1, 1]);
    assert_eq!(count_victory_buildings(&c, &turned), [1, 1]);
}

fn world() -> World {
    let row = |bits: u64, owner: Option<Faction>, unit: Option<usize>| Row {
        entity: Entity { bits },
        owner,
        unit_def: unit,
        producer_def: None,
    };
    World {
        rows: vec![
            row(1, Some(Faction::A), Some(0)),
            row(2, Some(Faction::B), Some(1)),
            row(3, None, None),
        ],
    }
}

fn names() -> SimIds {
    let mut ids = SimIds::default();
    for bits in 1..=3 {
        ids.issue(Entity { bits });
    }
    ids
}

fn play(queue: &mut OrderQueue, log: &mut CommandLog, tick: u32) -> (Vec<Effect>, Stockpiles) {
    let mut stock = Stockpiles::starting(300);
    let effects = apply_commands(queue, tick, log, &content(), &mut stock, &world(), Some(&names()));
    (effects, stock)
}

#[test]
fn a_replay_of_the_log_does_the_same() {
    let mut queue = OrderQueue::default();
    let go = |bits: &[u64]| Order::MoveTo {
        units: bits.iter().map(|b| Entity { bits: *b }).collect(),
        dest: point(4.0, 4.0),
    };
    queue.push_back(SignedOrder::from(go(&[1, 77]).issued_by(Faction::A)));
    queue.push_at(5, SignedOrder::from(go(&[2, 3])));
    queue.push_back(SignedOrder::from(Order::Place {
        faction: Faction::B,
        building: 1,
        pos: point(0.0, 0.0),
    }));
    queue.push_at(4, SignedOrder::from(go(&[1])));
    let mut log = CommandLog::new(0);
    let first = play(&mut queue, &mut log, 5);
    assert_eq!(first.0.len(), 4);
    assert_eq!(log.late(), 1);
    // Feed the log back, as it was scheduled.
    let mut again = OrderQueue::default();
    for c in log.commands() {
        let order = c.order.to_order().unwrap();
        let signed = SignedOrder::from_parts(c.attribution, order);
        match c.schedule {
            CommandTick::Asap => again.push_back(signed),
            CommandTick::At(t) => again.push_at(t, signed),
        }
    }
    let mut second_log = CommandLog::new(0);
    let second = play(&mut again, &mut second_log, 5);
    assert_eq!(first, second);
    assert_eq!(second_log.unnameable, 0, "naming is done once");
    let fates = |l: &CommandLog| l.commands().iter().map(|c| c.fate).collect::<Vec<_>>();
    assert_eq!(fates(&log), fates(&second_log));
    assert!(fates(&log).contains(&CommandFate::Late));
}

#[test]
fn a_turn_goes_out_once() {
    let config = NetConfig {
        turn_delay_ticks: 3,
        hash_interval_ticks: 2,
        stall_timeout_secs: num(9.0),
    };
    let mut link = NetLink::new(Faction::A, config).unwrap();
    let hello = Frame::Hello {
        protocol: PROTOCOL_VERSION,
        faction: Faction::B,
        seed: 7,
        content: content().fingerprint(),
    };
    let mut queue = OrderQueue::default();
    let mut gate = TickGate { open: false };
    let mut turns = Vec::new();
    let mut hellos = 0;
    for (k, frames) in [vec![hello], vec![], vec![], vec![]].into_iter().enumerate() {
        queue.push_back(SignedOrder::from(Order::MoveTo {
            units: vec![Entity { bits: 1 }],
            dest: point(k as f32, 0.0),
        }));
        let out = link.pump(
            0,
            7,
            &content(),
            &names(),
            None,
            Ok(frames),
            false,
            num(0.0),
            &mut queue,
            &mut gate,
        );
        assert!(queue.is_empty(), "local commands are held back every time");
        for f in out {
            match f {
                Frame::Turn { tick, commands } => turns.push((tick, commands.len())),
                Frame::Hello { .. } => hellos += 1,
                Frame::Hash { .. } => panic!("nothing was hashed"),
            }
        }
    }
    assert_eq!(turns, vec![(3, 1)]);
    assert_eq!(hellos, 1);
    assert!(link.has_turn(0) == false && gate.open, "before the first turn there is nothing to wait for");
}
