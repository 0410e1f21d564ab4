//! Tests of the simulation: content, commanders, combat, economy and commands.

use onus::float::{Point, F32};
use onus::sim::content::{
    Acquisition, AiDef, ArmyItem, BuildingDef, CombatDef, Content, Cost, EconomyDef, NemesisBonus,
    Opening, ResourceDef, StrategyDef, UnitDef,
};
use onus::sim::UnitKind;
use onus::headless;
use onus::headless::{MatchSettings, Orientation};
use onus::netpeer;
use onus::netpeer::Opened;
use onus::setup::{setup, Spawn};
use onus::sim::ai::think::{BuildingRow, NodeRow, Snapshot, UnitRow};
use onus::sim::ai::{act, ai_commanders, AiAction, AiCommander, AiCommanders, AiJournal, Decision};
use onus::sim::combat::approach::{approach_waypoint, segment_is_clear};
use onus::sim::combat::{combat, damage_per_hit, Casualties, Fighter, Health, Sight};
use onus::sim::command::{apply_commands, Effect};
use onus::sim::economy::gather::{Depot, Motion, ResourceNode, Span, Worker};
use onus::sim::economy::production::Producer;
use onus::sim::economy::{
    enqueue_unit, gather, place_building, production, GatherPhase, ProductionQueue, QueuedUnit,
    Stockpiles,
};
use onus::sim::orders::{Attribution, CommandTick, Order, OrderQueue, SignedOrder};
use onus::sim::pathfind::TileGrid;
use onus::sim::registry::{SimId, SimIds};
use onus::sim::replay::{CommandFate, CommandLog, LoggedOrder, MatchLog};
use onus::sim::spatial::{random_layout, Faction};
use onus::sim::turns::turn_order;
use onus::sim::world::{Entity, Row, World};
use onus::ui::options_text;

fn num(x: f32) -> F32 {
    F32 { bits: x.to_bits() }
}

fn point(x: f32, y: f32) -> Point {
    Point { x: num(x), y: num(y) }
}

fn unit(id: &str, name: &str, kind: UnitKind, stats: [u32; 4], nemesis: Option<&str>) -> UnitDef {
    let [offense, defense, armor, speed] = stats;
    let gathers = kind == UnitKind::Worker;
    UnitDef {
        id: id.to_string(),
        name: name.to_string(),
        source: if gathers { Some("hq".to_string()) } else { None },
        barracks: if gathers { None } else { Some("foundry".to_string()) },
        cost: Cost {
            resource: "alloy".to_string(),
            amount: 50,
        },
        mvp_kind: kind,
        mvp_alloy_cost: if gathers { 50 } else { 100 },
        mvp_train_ticks: if gathers { 60 } else { 120 },
        mvp_carry_capacity: if gathers { 10 } else { 0 },
        mvp_gather_ticks: if gathers { 30 } else { 0 },
        mvp_attack_ticks: if offense > 0 { 30 } else { 0 },
        mvp_attack_range: num(if offense > 0 { 40.0 } else { 0.0 }),
        speed,
        offense,
        defense,
        armor,
        nemesis: nemesis.map(|s| s.to_string()),
        gathers,
        builds: gathers,
    }
}

fn building(id: &str, produces: &[&str], victory: bool) -> BuildingDef {
    BuildingDef {
        id: id.to_string(),
        name: id.to_uppercase(),
        alloy_cost: 150,
        produces: produces.iter().map(|s| s.to_string()).collect(),
        dropoff: victory,
        victory,
        mvp_defense: 9,
        mvp_armor: 3,
    }
}

fn army() -> Vec<ArmyItem> {
    vec![
        ArmyItem {
            unit: "bulwark".to_string(),
            count: 2,
        },
        ArmyItem {
            unit: "ravager".to_string(),
            count: 1,
        },
    ]
}

fn strategy(id: &str) -> StrategyDef {
    StrategyDef {
        id: id.to_string(),
        think_interval_ticks: 15,
        worker_target: 5,
        barracks: vec![Opening {
            building: "foundry".to_string(),
            at_tick: 0,
            offset: num(120.0),
        }],
        army: army(),
        attack_at_army: 2,
        attack_interval_ticks: 300,
        attack_spread: num(30.0),
    }
}

/// A small roster with the stats that the tests speak of.
fn content() -> Content {
    Content {
        units: vec![
            unit("worker", "Worker", UnitKind::Worker, [0, 2, 0, 5], None),
            unit("bulwark", "Bulwark", UnitKind::Soldier, [4, 9, 9, 2], Some("ravager")),
            unit("ravager", "Ravager", UnitKind::Soldier, [7, 6, 4, 5], Some("sentinel")),
            unit("sentinel", "Sentinel", UnitKind::Scout, [5, 5, 5, 6], Some("arclight")),
            unit("arclight", "Arclight", UnitKind::Soldier, [9, 3, 1, 4], Some("bulwark")),
        ],
        buildings: vec![
            building("hq", &["worker"], true),
            building("foundry", &["bulwark", "ravager", "sentinel", "arclight"], false),
        ],
        combat: CombatDef {
            hp_per_defense: 20,
            damage_per_offense: 5,
            mitigation_per_armor: 2,
            speed_per_point: num(12.0),
            engage_range: num(150.0),
            max_stat: 10,
            building_hp_per_defense: 100,
            pursue_range: num(300.0),
        },
        nemesis_bonus: NemesisBonus {
            damage_mult: num(1.3),
            ignore_armor: true,
        },
        ai: AiDef {
            think_interval_ticks: 15,
            worker_target: 5,
            barracks: "foundry".to_string(),
            barracks_at_tick: 0,
            barracks_offset: num(120.0),
            army: army(),
            attack_at_army: 2,
            attack_interval_ticks: 300,
            attack_spread: num(30.0),
        },
        strategies: vec![strategy("standard"), strategy("rush")],
        default_strategy: "standard".to_string(),
        resources: vec![ResourceDef {
            id: "alloy".to_string(),
            name: "Alloy".to_string(),
            domain: "ground".to_string(),
            building: "hq".to_string(),
            acquisition: Acquisition::Mined,
            powers: vec!["units".to_string()],
        }],
        mvp_active: vec!["alloy".to_string()],
        economy: EconomyDef {
            currency: "alloy".to_string(),
            starting_alloy: 200,
            gather_range: num(20.0),
            deposit_range: num(40.0),
        },
    }
}

// ---- content ----------------------------------------------------------------

#[test]
fn the_test_content_is_valid() {
    let c = content();
    assert!(c.validate("1.3").is_ok(), "{:?}", c.validate("1.3").map_err(|e| e.message()));
}

#[test]
fn lookups_resolve_by_id_in_ron_order() {
    let c = content();
    assert_eq!(c.unit_index("worker"), Some(0));
    assert_eq!(c.unit("arclight").unwrap().offense, 9);
    assert_eq!(c.building_index("hq"), Some(0));
    assert_eq!(c.unit_index("nonesuch"), None);
    assert_eq!(c.building_index("nonesuch"), None);
}

#[test]
fn production_table_is_data_driven() {
    let c = content();
    let hq = c.building_index("hq").unwrap();
    let foundry = c.building_index("foundry").unwrap();
    let worker = c.unit_index("worker").unwrap();
    let bulwark = c.unit_index("bulwark").unwrap();
    assert!(c.produces(hq, worker));
    assert!(!c.produces(hq, bulwark));
    assert!(c.produces(foundry, bulwark));
    assert!(!c.produces(foundry, worker));
    assert!(!c.produces(999, worker));
}

#[test]
fn invalid_content_is_refused_with_a_reason() {
    let mut c = content();
    c.units[1].nemesis = Some("nobody".to_string());
    assert_eq!(
        c.validate("1.3").unwrap_err().message(),
        "invalid content: unit `bulwark` names unknown nemesis `nobody`"
    );
    let mut c = content();
    c.units[2].id = "bulwark".to_string();
    let message = c.validate("1.3").unwrap_err().message();
    assert!(message.starts_with("invalid content: duplicate unit id `bulwark` at positions 1 and 2"));
    let mut c = content();
    c.buildings[1].victory = true;
    assert_eq!(
        c.validate("1.3").unwrap_err().message(),
        "invalid content: exactly one building must be the victory target; found [\"hq\", \"foundry\"]"
    );
}

#[test]
fn a_fingerprint_tells_contents_apart() {
    let a = content().fingerprint();
    assert_eq!(a.hash(), content().fingerprint().hash());
    assert!(a.is_known());
    assert_eq!(
        a.summary(),
        "5 units [worker,bulwark,ravager,sentinel,arclight], 2 buildings [hq,foundry], 1 resources"
    );
    let mut c = content();
    c.units[4].offense = 8;
    assert_ne!(c.fingerprint().hash(), a.hash());
    assert!(a.describe().ends_with(')'));
}

// ---- commanders -------------------------------------------------------------

#[test]
fn the_army_build_order_repeats_in_ron_order() {
    let c = content();
    let cycle = c.ai.cycle_len().expect("cycle fits u32");
    assert!(cycle > 0);
    // The walk is a pure function of the cursor: cursor n and n + cycle name
    // the same unit, for every n.
    for n in 0..(cycle * 3) {
        assert_eq!(c.ai.army_at(n), c.ai.army_at(n + cycle), "cursor {n}");
    }
    // And it visits every entry of the build order.
    for item in &c.ai.army {
        assert!(
            (0..cycle).any(|n| c.ai.army_at(n) == Some(item.unit.as_str())),
            "`{}` never comes up",
            item.unit
        );
    }
}

#[test]
fn commanders_are_seeded_per_faction_and_ordered_by_slot() {
    let cs = AiCommanders::new(7, &[Faction::B, Faction::A]);
    assert_eq!(
        cs.commanders().iter().map(|c| c.faction).collect::<Vec<_>>(),
        vec![Faction::A, Faction::B],
        "commanders act in faction-slot order, not insertion order"
    );
    // One seed, two independent streams; the same seed, the same stream.
    let draw = |f, seed| AiCommander::new(f, seed).rng.next_u64();
    assert_ne!(draw(Faction::A, 7), draw(Faction::B, 7));
    assert_eq!(draw(Faction::A, 7), draw(Faction::A, 7));
    assert_ne!(draw(Faction::A, 7), draw(Faction::A, 8));
}

#[test]
fn a_named_strategy_resolves_to_an_index_and_an_unknown_one_is_refused() {
    let c = content();
    let cmd = AiCommander::with_strategy(&c, Faction::A, 3, &c.default_strategy)
        .expect("the default is a named strategy");
    assert_eq!(cmd.strategy_index(), c.strategy_index(&c.default_strategy));
    assert_eq!(cmd.strategy(&c).id, c.default_strategy);
    // `new` carries no index and resolves to the content's default.
    let plain = AiCommander::new(Faction::A, 3);
    assert_eq!(plain.strategy_index(), None);
    assert_eq!(plain.strategy(&c).id, c.default_strategy);
    // A name nobody has is an error, not a quiet default.
    let err = AiCommander::with_strategy(&c, Faction::B, 3, "no_such_plan").unwrap_err();
    assert_eq!(err.id, "no_such_plan");
    assert_eq!(err.faction, Some(Faction::B));
    assert_eq!(err.message(), "no strategy `no_such_plan` (asked for by B)");
}

#[test]
fn a_matchup_seeds_exactly_as_the_default_constructor_does() {
    let c = content();
    let pair = AiCommanders::matchup(
        &c,
        7,
        &[
            (Faction::B, c.default_strategy.as_str()),
            (Faction::A, c.default_strategy.as_str()),
        ],
    )
    .expect("both sides name the default");
    let plain = AiCommanders::new(7, &[Faction::A, Faction::B]);
    assert_eq!(
        pair.commanders()
            .iter()
            .map(|k| (k.faction, k.rng_state()))
            .collect::<Vec<_>>(),
        plain
            .commanders()
            .iter()
            .map(|k| (k.faction, k.rng_state()))
            .collect::<Vec<_>>(),
        "naming the default changed the seed derivation"
    );
}

#[test]
fn a_faction_gets_exactly_one_commander() {
    let cs = AiCommanders::new(1, &[Faction::A, Faction::A, Faction::B]);
    assert_eq!(cs.commanders().len(), 2, "a faction was given two brains");
    // ...and so does a matchup, however it was spelled.
    let c = content();
    let d = c.default_strategy.as_str();
    let cs = AiCommanders::matchup(&c, 1, &[(Faction::A, d), (Faction::A, d), (Faction::B, d)])
        .unwrap();
    assert_eq!(cs.commanders().len(), 2, "a faction was given two brains");
}

#[test]
fn a_match_refuses_an_unknown_strategy() {
    let c = content();
    let settings = MatchSettings::default().with_strategies("rush", "nope");
    let err = headless::commanders(&c, &settings).unwrap_err();
    assert_eq!((err.id.as_str(), err.faction), ("nope", Some(Faction::B)));
    let ok = headless::commanders(&c, &MatchSettings::default().with_strategies("rush", "standard"))
        .unwrap();
    assert_eq!(ok.commanders()[0].strategy_index(), Some(1));
    assert_eq!(ok.commanders()[1].strategy_index(), Some(0));
    let plain = headless::commanders(&c, &MatchSettings::default()).unwrap();
    assert_eq!(plain.commanders()[0].strategy_index(), None);
}

#[test]
fn openings_put_both_sides_on_the_ground() {
    let c = content();
    let all = headless::opening(&c, Orientation::Swapped).unwrap();
    assert_eq!(all.len(), 10);
    assert_eq!(
        all[0],
        Spawn::Building {
            def: 0,
            faction: Faction::A,
            x: 750,
            y: 0,
            health: None
        }
    );
    assert_eq!(
        all[1],
        Spawn::Node {
            amount: 100_000,
            x: 750,
            y: 250
        }
    );
    let shipped = setup(&c).unwrap();
    assert_eq!(shipped.len(), 16);
    assert_eq!(
        shipped[3],
        Spawn::Unit {
            def: 1,
            kind: UnitKind::Soldier,
            faction: Faction::A,
            x: -230,
            y: -40,
            health: Health {
                current: 180,
                max: 180
            }
        }
    );
    let mut none = content();
    none.buildings.clear();
    assert!(setup(&none).is_none());
}

#[test]
fn a_networked_match_is_laid_out_by_its_seed() {
    let c = content();
    let a = netpeer::opening(&c, 7).unwrap();
    assert_eq!(a, netpeer::opening(&c, 7).unwrap());
    assert_ne!(a, netpeer::opening(&c, 8).unwrap());
    assert_eq!(a.len(), 10);
    assert_eq!(
        a[5],
        Opened::There(Spawn::Building {
            def: 0,
            faction: Faction::B,
            x: 750,
            y: 0,
            health: Some(Health {
                current: 900,
                max: 900
            })
        })
    );
    let first = random_layout(3, 7);
    match a[2] {
        Opened::Around { thing, at } => {
            assert_eq!(at, first[0].pos);
            assert!(matches!(thing, Spawn::Unit { x: -750, y: 0, .. }));
        }
        other => panic!("{other:?}"),
    }
}

fn snapshot() -> Snapshot {
    Snapshot {
        units: vec![
            UnitRow {
                entity: Entity { bits: 12 },
                def: 1,
                faction: Faction::A,
                on_a_job: false,
                to_nodes: vec![num(9.0), num(1.0)],
            },
            UnitRow {
                entity: Entity { bits: 11 },
                def: 0,
                faction: Faction::A,
                on_a_job: false,
                to_nodes: vec![num(4.0), num(9.0)],
            },
            UnitRow {
                entity: Entity { bits: 10 },
                def: 2,
                faction: Faction::A,
                on_a_job: false,
                to_nodes: vec![num(1.0), num(1.0)],
            },
        ],
        buildings: vec![
            BuildingRow {
                entity: Entity { bits: 21 },
                pos: point(750.0, 0.0),
                def: 0,
                faction: Faction::B,
                queued: 0,
            },
            BuildingRow {
                entity: Entity { bits: 20 },
                pos: point(-750.0, 0.0),
                def: 0,
                faction: Faction::A,
                queued: 0,
            },
        ],
        nodes: vec![
            NodeRow {
                entity: Entity { bits: 31 },
                pos: point(1.0, 2.0),
            },
            NodeRow {
                entity: Entity { bits: 30 },
                pos: point(3.0, 4.0),
            },
        ],
    }
}

#[test]
fn a_decision_mines_trains_builds_and_attacks() {
    let c = content();
    let mut ai = AiCommanders::new(7, &[Faction::A]);
    let mut rng = ai.commanders()[0].rng;
    let thoughts = ai_commanders(&c, &Stockpiles::starting(210), &mut ai, &snapshot());
    assert_eq!(thoughts.len(), 1);
    let t = &thoughts[0];
    assert_eq!((t.tick, t.faction), (0, Faction::A));
    assert_eq!(t.decisions.len(), 4);
    assert!(matches!(
        t.decisions[0],
        Decision::Gather { unit: Entity { bits: 11 }, node: Entity { bits: 31 }, .. }
    ));
    assert!(matches!(
        t.decisions[1],
        Decision::TrainWorker { at: Entity { bits: 20 }, unit: 0 }
    ));
    // 210 - 50 leaves 160: enough for the barracks, not for a soldier as well.
    let turn = rng.next_f32();
    assert!(matches!(t.decisions[2], Decision::Place { building: 1, turn: x, .. } if x == turn));
    match &t.decisions[3] {
        Decision::Attack { force, x, y, .. } => {
            assert_eq!(force, &vec![Entity { bits: 10 }, Entity { bits: 12 }]);
            assert_eq!(*x, rng.next_f32());
            assert_eq!(*y, rng.next_f32());
        }
        other => panic!("{other:?}"),
    }
    assert_eq!(ai.commanders()[0].rng_state(), rng.state());
    assert_eq!(ai.commanders()[0].tick(), 1);
    // Not its tick: it draws nothing and decides nothing.
    let before = ai.commanders()[0].rng_state();
    assert!(ai_commanders(&c, &Stockpiles::starting(210), &mut ai, &snapshot()).is_empty());
    assert_eq!(ai.commanders()[0].rng_state(), before);
}

#[test]
fn decisions_become_signed_orders_and_journal_entries() {
    let c = content();
    let mut ai = AiCommanders::new(7, &[Faction::A]);
    let thoughts = ai_commanders(&c, &Stockpiles::starting(210), &mut ai, &snapshot());
    let mut queue = OrderQueue::default();
    let mut journal = AiJournal::default();
    let spots = vec![point(5.0, 6.0); thoughts[0].decisions.len()];
    act(&thoughts[0], &spots, &mut queue, &mut journal);
    assert_eq!(queue.len(), 4);
    assert_eq!(queue.get(0).unwrap().attribution(), Attribution::By(Faction::A));
    assert_eq!(queue.front().unwrap().when(), CommandTick::Asap);
    let mine = journal.for_faction(Faction::A);
    assert_eq!(mine.len(), 4);
    assert_eq!(
        mine[2],
        (
            0,
            AiAction::PlaceBarracks {
                building: 1,
                pos: point(5.0, 6.0)
            }
        )
    );
    assert_eq!(
        mine[3],
        (
            0,
            AiAction::Attack {
                dest: point(5.0, 6.0),
                force: 2
            }
        )
    );
    assert!(journal.for_faction(Faction::B).is_empty());
}

#[test]
fn the_order_of_the_listing_does_not_reach_a_decision() {
    let c = content();
    let mut turned = snapshot();
    turned.units.reverse();
    turned.buildings.reverse();
    turned.nodes.reverse();
    for u in turned.units.iter_mut() {
        u.to_nodes.reverse();
    }
    let think = |s: &Snapshot| {
        let mut ai = AiCommanders::new(7, &[Faction::A, Faction::B]);
        let t = ai_commanders(&c, &Stockpiles::starting(1000), &mut ai, s);
        format!("{t:?}")
    };
    assert_eq!(think(&snapshot()), think(&turned));
}

#[test]
fn without_a_headquarters_nobody_decides() {
    let c = content();
    let mut s = snapshot();
    s.buildings.clear();
    let mut ai = AiCommanders::new(7, &[Faction::A]);
    let thoughts = ai_commanders(&c, &Stockpiles::starting(1000), &mut ai, &s);
    assert!(thoughts[0].decisions.is_empty());
}

// ---- combat -----------------------------------------------------------------

#[test]
fn damage_is_offense_minus_flat_armor() {
    let c = content();
    let (arclight, ravager) = (
        c.unit_index("arclight").unwrap(),
        c.unit_index("ravager").unwrap(),
    );
    // 9 offense * 5 = 45, minus 4 armor * 2 = 8 → 37.
    assert_eq!(damage_per_hit(&c, arclight, ravager), 37);
}

#[test]
fn armor_can_absorb_a_hit_but_never_heals() {
    let c = content();
    let (worker, bulwark) = (
        c.unit_index("worker").unwrap(),
        c.unit_index("bulwark").unwrap(),
    );
    assert_eq!(damage_per_hit(&c, worker, bulwark), 0);
    assert_eq!(damage_per_hit(&c, 999, bulwark), 0, "unknown ids are inert");
}

#[test]
fn nemesis_boosts_by_30_percent_and_skips_armor() {
    let c = content();
    let (bulwark, ravager, sentinel) = (
        c.unit_index("bulwark").unwrap(),
        c.unit_index("ravager").unwrap(),
        c.unit_index("sentinel").unwrap(),
    );
    // Bulwark preys on the Ravager: 4 * 5 = 20 base, * 1300 / 1000 = 26,
    // and the Ravager's 4 armor (8 mitigation) is ignored.
    assert_eq!(damage_per_hit(&c, bulwark, ravager), 26);
    // Against anything else the plain armor math applies: 20 - 5 * 2 = 10.
    assert_eq!(damage_per_hit(&c, bulwark, sentinel), 10);
    // The bonus is not symmetric: the prey gets nothing back.
    assert_eq!(
        damage_per_hit(&c, ravager, bulwark),
        35u32.saturating_sub(18),
        "Ravager preys on the Sentinel, not the Bulwark"
    );
}

#[test]
fn the_nemesis_multiplier_is_integer_per_mille() {
    let c = content();
    assert_eq!(c.nemesis_bonus.mult_milli(), 1_300);
    // floor(base * 1300 / 1000) — stated here so a rounding change is a
    // test failure, not a silent balance shift.
    for base in [0u32, 1, 3, 7, 20, 45, 1_000] {
        let expect = (base as u64 * 1_300 / 1_000) as u32;
        assert_eq!(base * 13 / 10, expect, "base {base}");
    }
}

#[test]
fn health_pool_comes_from_defense() {
    let c = content();
    let h = Health::from_def(&c, c.unit_index("bulwark").unwrap());
    assert_eq!((h.current, h.max), (180, 180)); // defense 9 * 20
    let hq = Health::from_building_def(&c, 0);
    assert_eq!((hq.current, hq.max), (900, 900)); // defense 9 * 100
    assert_eq!(Health::from_def(&c, 99).max, 0);
}

fn fighter(bits: u64, def: usize, faction: Faction, hp: u32, distances: &[f32]) -> Fighter {
    Fighter {
        entity: Entity { bits },
        def,
        faction,
        health: Some(Health {
            current: hp,
            max: 180,
        }),
        cooldown: None,
        engaging: false,
        moving: false,
        gathering: false,
        sights: distances
            .iter()
            .map(|d| Sight {
                distance: num(*d),
                squared: num(d * d),
            })
            .collect(),
    }
}

#[test]
fn two_units_that_kill_each_other_both_die() {
    let c = content();
    let mut lost = Casualties::default();
    let out = combat(
        &c,
        &mut lost,
        &vec![
            fighter(2, 4, Faction::A, 10, &[0.0, 30.0]),
            fighter(1, 4, Faction::B, 10, &[30.0, 0.0]),
        ],
    );
    assert!(out[0].died && out[1].died);
    assert_eq!((lost.lost(Faction::A), lost.lost(Faction::B)), (1, 1));
    assert_eq!(lost.total(), 2);
    assert_eq!(out[0].target, None);
}

#[test]
fn combat_hits_chases_and_leaves_orders_alone() {
    let c = content();
    let mut lost = Casualties::default();
    // In reach: hit, and start the cooldown. arclight on ravager: 37.
    let out = combat(
        &c,
        &mut lost,
        &vec![
            fighter(1, 4, Faction::A, 100, &[0.0, 30.0]),
            fighter(2, 2, Faction::B, 100, &[30.0, 0.0]),
        ],
    );
    assert_eq!(out[1].health, Some(Health { current: 63, max: 180 }));
    assert_eq!(out[0].cooldown, Some(30));
    assert_eq!(out[0].target, Some(Entity { bits: 2 }));
    // Out of reach: an idle unit closes in, one with orders does not.
    let mut rows = vec![
        fighter(1, 4, Faction::A, 100, &[0.0, 100.0]),
        fighter(2, 2, Faction::B, 100, &[100.0, 0.0]),
    ];
    assert_eq!(combat(&c, &mut lost, &rows)[0].chase, Some(1));
    rows[0].moving = true;
    assert_eq!(combat(&c, &mut lost, &rows)[0].chase, None);
    // A unit on a gather job engages nobody.
    rows[0].moving = false;
    rows[0].gathering = true;
    let out = combat(&c, &mut lost, &rows);
    assert_eq!((out[0].chase, out[0].target), (None, None));
    // Beyond the leash a chase ends.
    rows[0] = fighter(1, 4, Faction::A, 100, &[0.0, 500.0]);
    rows[0].engaging = true;
    rows[0].cooldown = Some(3);
    let out = combat(&c, &mut lost, &rows);
    assert!(out[0].halt);
    assert_eq!(out[0].cooldown, Some(2));
    assert_eq!(lost.total(), 0);
}

#[test]
fn equally_near_enemies_are_chosen_by_entity() {
    let c = content();
    let mut lost = Casualties::default();
    let out = combat(
        &c,
        &mut lost,
        &vec![
            fighter(5, 4, Faction::A, 100, &[0.0, 30.0, 30.0]),
            fighter(9, 2, Faction::B, 100, &[30.0, 0.0, 1.0]),
            fighter(7, 2, Faction::B, 100, &[30.0, 1.0, 0.0]),
        ],
    );
    assert_eq!(out[0].target, Some(Entity { bits: 7 }));
}

#[test]
fn the_order_of_the_listing_decides_no_fight() {
    let c = content();
    let rows = vec![
        fighter(5, 4, Faction::A, 30, &[0.0, 30.0, 100.0]),
        fighter(9, 2, Faction::B, 90, &[30.0, 0.0, 70.0]),
        fighter(7, 3, Faction::B, 90, &[100.0, 70.0, 0.0]),
    ];
    let turned = vec![
        fighter(7, 3, Faction::B, 90, &[0.0, 70.0, 100.0]),
        fighter(9, 2, Faction::B, 90, &[70.0, 0.0, 30.0]),
        fighter(5, 4, Faction::A, 30, &[100.0, 30.0, 0.0]),
    ];
    let (mut x, mut y) = (Casualties::default(), Casualties::default());
    let (v, w) = (combat(&c, &mut x, &rows), combat(&c, &mut y, &turned));
    assert_eq!(x, y);
    for i in 0..3 {
        let (a, b) = (v[i], w[2 - i]);
        assert_eq!((a.died, a.health, a.target, a.cooldown), (b.died, b.health, b.target, b.cooldown));
        assert_eq!(a.chase.map(|j| 2 - j), b.chase);
    }
    assert!(v.iter().any(|v| v.chase.is_some()));
    assert!(v.iter().any(|v| v.died));
}

#[test]
fn an_approach_goes_around_a_wall() {
    let grid = TileGrid::from_rows(&["...", ".#.", "..."], num(1.0), point(0.0, 0.0));
    assert!(segment_is_clear(&grid, &vec![0, 1, 2]));
    assert!(!segment_is_clear(&grid, &vec![3, 4, 5]));
    assert_eq!(approach_waypoint(&grid, &vec![0, 1, 2], 0, 2), None);
    let next = approach_waypoint(&grid, &vec![3, 4, 5], 3, 5).unwrap();
    assert!(next == 0 || next == 6);
    assert_eq!(approach_waypoint(&grid, &vec![4], 3, 4), None, "no way in");
}

// ---- economy ----------------------------------------------------------------

#[test]
fn stockpiles_move_alloy_and_never_mint_it() {
    let mut s = Stockpiles::starting(10);
    assert!(!s.try_spend(Faction::A, 11));
    assert_eq!(s.alloy(Faction::A), 10);
    assert!(s.try_spend(Faction::A, 10));
    assert_eq!((s.alloy(Faction::A), s.alloy(Faction::B)), (0, 10));
    let mut full = Stockpiles::starting(u32::MAX - 3);
    assert_eq!(full.add(Faction::B, 10), 3);
    assert_eq!(full.alloy(Faction::B), u32::MAX);
}

fn worker(bits: u64, phase: GatherPhase, carrying: Option<u32>, to_node: f32, depot: f32) -> Worker {
    Worker {
        entity: Entity { bits },
        def: 0,
        faction: Faction::A,
        node: Entity { bits: 50 },
        carrying,
        phase,
        to_node: num(to_node),
        spans: vec![Span {
            distance: num(depot),
            squared: num(depot * depot),
        }],
    }
}

#[test]
fn workers_walk_harvest_and_deposit() {
    let c = content();
    let depots = vec![Depot {
        entity: Entity { bits: 20 },
        pos: point(-750.0, 0.0),
        def: 0,
        faction: Faction::A,
    }];
    let node = ResourceNode {
        entity: Entity { bits: 50 },
        pos: point(1.0, 1.0),
        amount: 15,
    };
    let mut stock = Stockpiles::starting(0);
    let mut nodes = vec![node];
    let out = gather(
        &c,
        &depots,
        &mut stock,
        &mut nodes,
        &vec![
            // Two race for the last of a deposit: the smaller entity goes first.
            worker(9, GatherPhase::Harvesting { ticks_left: 1 }, Some(0), 0.0, 900.0),
            worker(8, GatherPhase::Harvesting { ticks_left: 1 }, Some(0), 0.0, 900.0),
            worker(7, GatherPhase::ToNode, Some(0), 100.0, 900.0),
            worker(6, GatherPhase::ToNode, Some(0), 5.0, 900.0),
            worker(5, GatherPhase::ToDropoff, Some(7), 900.0, 30.0),
            worker(4, GatherPhase::ToDropoff, Some(7), 900.0, 300.0),
            worker(3, GatherPhase::ToNode, None, 100.0, 900.0),
        ],
    );
    assert_eq!(out[1].carrying, Some(10));
    assert_eq!(out[0].carrying, Some(5));
    assert_eq!(nodes[0].amount, 0);
    assert_eq!(out[2].motion, Motion::Go(point(1.0, 1.0)));
    assert_eq!(out[3].phase, GatherPhase::Harvesting { ticks_left: 30 });
    assert_eq!((out[4].carrying, out[4].phase), (Some(0), GatherPhase::ToNode));
    assert_eq!(stock.alloy(Faction::A), 7);
    assert_eq!(out[5].motion, Motion::Go(point(-750.0, 0.0)));
    assert_eq!(out[6].carrying, Some(0));
    // Conserved: 15 in the ground and 14 carried before, as much after.
    let carried: u32 = out.iter().filter_map(|s| s.carrying).sum();
    assert_eq!(carried + stock.alloy(Faction::A) + nodes[0].amount, 15 + 14);
    // The deposit is gone: the job is dropped, the load is not.
    let out = gather(
        &c,
        &depots,
        &mut stock,
        &mut Vec::new(),
        &vec![worker(9, GatherPhase::ToNode, Some(4), 0.0, 900.0)],
    );
    assert!(!out[0].employed);
    assert_eq!(out[0].carrying, Some(4));
    // A soldier with a job it cannot do is released.
    let mut soldier = worker(9, GatherPhase::ToNode, None, 0.0, 900.0);
    soldier.def = 1;
    let out = gather(&c, &depots, &mut stock, &mut Vec::new(), &vec![soldier]);
    assert!(!out[0].employed);
}

#[test]
fn the_race_for_the_last_of_a_deposit_ignores_the_listing() {
    let c = content();
    let play = |workers: Vec<Worker>| {
        let mut nodes = vec![ResourceNode {
            entity: Entity { bits: 50 },
            pos: point(0.0, 0.0),
            amount: 4,
        }];
        let depots = vec![Depot {
            entity: Entity { bits: 20 },
            pos: point(9.0, 9.0),
            def: 0,
            faction: Faction::A,
        }];
        let mut stock = Stockpiles::starting(0);
        let out = gather(&c, &depots, &mut stock, &mut nodes, &workers);
        let mut by_entity: Vec<(u64, Option<u32>, bool)> = workers
            .iter()
            .zip(out)
            .map(|(w, s)| (w.entity.bits, s.carrying, s.employed))
            .collect();
        by_entity.sort();
        (by_entity, nodes[0].amount)
    };
    let mine = |bits| worker(bits, GatherPhase::Harvesting { ticks_left: 1 }, Some(0), 0.0, 900.0);
    let there = play(vec![mine(3), mine(8)]);
    assert_eq!(there, play(vec![mine(8), mine(3)]));
    assert_eq!(there, (vec![(3, Some(4), true), (8, Some(0), false)], 0));
}

#[test]
fn production_ignores_the_listing() {
    let c = content();
    let producer = |bits: u64, unit: usize| {
        let mut queue = ProductionQueue::default();
        queue.push(QueuedUnit { unit, ticks_left: 0 });
        Producer {
            entity: Entity { bits },
            pos: point(bits as f32, 0.0),
            faction: Faction::A,
            queue,
        }
    };
    let out = production(&c, &mut vec![producer(30, 1), producer(10, 2), producer(20, 99)]);
    assert_eq!(
        out.iter().map(|t| (t.from.bits, t.unit)).collect::<Vec<_>>(),
        vec![(10, 2), (30, 1)]
    );
}

#[test]
fn buildings_and_units_are_paid_for_once() {
    let c = content();
    let mut stock = Stockpiles::starting(250);
    assert!(place_building(&c, &mut stock, Faction::A, 1));
    assert_eq!(stock.alloy(Faction::A), 100);
    assert!(!place_building(&c, &mut stock, Faction::A, 1));
    assert!(!place_building(&c, &mut stock, Faction::A, 9));
    let mut queue = ProductionQueue::default();
    assert!(!enqueue_unit(&c, &mut stock, 0, Faction::A, &mut queue, 1), "not its product");
    assert!(!enqueue_unit(&c, &mut stock, 0, Faction::A, &mut queue, 77), "no such unit");
    assert!(enqueue_unit(&c, &mut stock, 1, Faction::A, &mut queue, 1));
    assert_eq!(stock.alloy(Faction::A), 0);
    assert_eq!(queue.get(0), Some(QueuedUnit { unit: 1, ticks_left: 120 }));
}

#[test]
fn production_delivers_after_its_time() {
    let c = content();
    let mut queue = ProductionQueue::default();
    queue.push(QueuedUnit { unit: 0, ticks_left: 2 });
    let mut all = vec![Producer {
        entity: Entity { bits: 20 },
        pos: point(0.0, 0.0),
        faction: Faction::B,
        queue,
    }];
    assert!(production(&c, &mut all).is_empty());
    assert!(production(&c, &mut all).is_empty());
    let out = production(&c, &mut all);
    assert_eq!(out.len(), 1);
    assert_eq!((out[0].unit, out[0].faction, out[0].gathers), (0, Faction::B, true));
    assert_eq!(out[0].health.max, 40);
    assert_eq!((out[0].spoke, out[0].spokes), (0, 5));
    assert!(all[0].queue.is_empty());
}

#[test]
fn turns_go_by_ascending_key() {
    assert_eq!(turn_order(&vec![30, 10, 20, 10]), vec![1, 3, 2, 0]);
    assert!(turn_order(&vec![]).is_empty());
}

// ---- orders and commands ----------------------------------------------------

fn row(bits: u64, owner: Option<Faction>, unit: Option<usize>, producer: Option<usize>) -> Row {
    Row {
        entity: Entity { bits },
        owner,
        unit_def: unit,
        producer_def: producer,
    }
}

fn world() -> World {
    World {
        rows: vec![
            row(1, Some(Faction::A), Some(0), None),
            row(2, Some(Faction::B), Some(1), None),
            row(3, None, None, None),
            row(4, Some(Faction::A), None, Some(1)),
        ],
    }
}

fn registry(n: u64) -> SimIds {
    let mut ids = SimIds::default();
    for bits in 1..=n {
        ids.issue(Entity { bits });
    }
    ids
}

fn go(units: &[u64]) -> Order {
    Order::MoveTo {
        units: units.iter().map(|b| Entity { bits: *b }).collect(),
        dest: point(5.0, 5.0),
    }
}

fn run(order: Order, ids: Option<&SimIds>) -> (Vec<Effect>, Stockpiles, CommandLog) {
    let c = content();
    let mut queue = OrderQueue::default();
    queue.push_back(SignedOrder::from(order));
    let mut log = CommandLog::new(3);
    let mut stock = Stockpiles::starting(200);
    let out = apply_commands(&mut queue, 7, &mut log, &c, &mut stock, &world(), ids);
    assert!(queue.is_empty());
    (out, stock, log)
}

#[test]
fn signatures_are_peeled_and_disagreement_voids() {
    let s = SignedOrder::from(go(&[1]));
    assert_eq!((s.attribution(), s.issuer()), (Attribution::SelfSigned, None));
    let s = SignedOrder::from(go(&[1]).issued_by(Faction::B));
    assert_eq!(s.issuer(), Some(Faction::B));
    let s = SignedOrder::from(go(&[1]).issued_by(Faction::A).issued_by(Faction::A));
    assert_eq!(s.attribution(), Attribution::By(Faction::A));
    let s = SignedOrder::from(go(&[1]).issued_by(Faction::A).issued_by(Faction::B));
    assert_eq!(s.attribution(), Attribution::Void);
    assert!(matches!(s.order(), Order::MoveTo { .. }));
    let (a, o) = s.into_parts();
    assert_eq!(SignedOrder::from_parts(a, o).attribution(), Attribution::Void);
}

#[test]
fn the_queue_takes_what_is_due_and_keeps_the_rest() {
    let mut q = OrderQueue::default();
    q.push_at(9, SignedOrder::from(go(&[1])));
    q.push_back(SignedOrder::from(go(&[2])));
    q.push_at(4, SignedOrder::from(go(&[3])));
    q.push_at(5, SignedOrder::from(go(&[4])));
    let due = q.take_due(5);
    assert_eq!(
        due.iter().map(|t| (t.schedule, t.late, t.tick)).collect::<Vec<_>>(),
        vec![
            (CommandTick::Asap, false, 5),
            (CommandTick::At(4), true, 5),
            (CommandTick::At(5), false, 5)
        ]
    );
    assert_eq!(q.len(), 1);
    assert_eq!(q.front().unwrap().when(), CommandTick::At(9));
    q.push_back(SignedOrder::from(go(&[6])));
    assert_eq!(q.take_unscheduled().len(), 1);
    assert_eq!(q.len(), 1);
    q.clear();
    assert!(q.is_empty());
}

#[test]
fn an_order_commands_one_side_only() {
    let (out, _, _) = run(go(&[1, 2, 3]).issued_by(Faction::A), None);
    assert_eq!(
        out,
        vec![
            Effect::Move { unit: Entity { bits: 1 }, dest: point(5.0, 5.0) },
            Effect::Move { unit: Entity { bits: 3 }, dest: point(5.0, 5.0) }
        ]
    );
    assert!(run(go(&[1, 2]), None).0.is_empty(), "two factions, no signature");
    assert_eq!(run(go(&[2, 3, 99]), None).0.len(), 2, "the dead do not move");
    assert!(run(go(&[1]).issued_by(Faction::A).issued_by(Faction::B), None).0.is_empty());
}

#[test]
fn only_gatherers_get_the_job() {
    let order = Order::Gather {
        units: vec![Entity { bits: 1 }, Entity { bits: 4 }],
        node: Entity { bits: 3 },
        node_pos: point(1.0, 2.0),
    };
    let (out, _, _) = run(order, None);
    assert_eq!(
        out,
        vec![
            Effect::Gather {
                unit: Entity { bits: 1 },
                dest: point(1.0, 2.0),
                job: Some(Entity { bits: 3 })
            },
            Effect::Gather {
                unit: Entity { bits: 4 },
                dest: point(1.0, 2.0),
                job: None
            }
        ]
    );
}

#[test]
fn spending_orders_are_charged_to_their_owner() {
    let place = |by: Option<Faction>| {
        let o = Order::Place {
            faction: Faction::A,
            building: 1,
            pos: point(0.0, 0.0),
        };
        match by {
            Some(f) => o.issued_by(f),
            None => o,
        }
    };
    let (out, stock, _) = run(place(Some(Faction::A)), None);
    assert_eq!(out.len(), 1);
    assert_eq!((stock.alloy(Faction::A), stock.alloy(Faction::B)), (50, 200));
    let (out, stock, _) = run(place(Some(Faction::B)), None);
    assert!(out.is_empty());
    assert_eq!(stock, Stockpiles::starting(200));
    let train = Order::Train {
        building: Entity { bits: 4 },
        unit: 1,
    };
    let (out, stock, _) = run(train, None);
    assert_eq!(
        out,
        vec![Effect::Train {
            building: Entity { bits: 4 },
            item: QueuedUnit { unit: 1, ticks_left: 120 }
        }]
    );
    assert_eq!(stock.alloy(Faction::A), 100);
    let enemy = Order::Train {
        building: Entity { bits: 4 },
        unit: 1,
    }
    .issued_by(Faction::B);
    assert!(run(enemy, None).0.is_empty());
}

#[test]
fn what_cannot_be_named_is_dropped_and_counted() {
    let ids = registry(3);
    let (out, _, log) = run(go(&[1, 9, 3]), Some(&ids));
    assert_eq!(out.len(), 2);
    assert_eq!(log.unnameable, 1);
    assert_eq!(log.commands().len(), 1);
    assert_eq!((log.commands()[0].tick, log.commands()[0].fate), (7, CommandFate::Taken));
    let (out, _, log) = run(
        Order::Train {
            building: Entity { bits: 4 },
            unit: 1,
        },
        Some(&ids),
    );
    assert!(out.is_empty());
    assert_eq!((log.unnameable, log.commands().len()), (1, 0));
    // Without a registry nothing is named and nothing recorded.
    let (_, _, log) = run(go(&[1]), None);
    assert_eq!((log.unrecorded, log.commands().len()), (1, 0));
}

#[test]
fn a_late_command_is_recorded_and_not_applied() {
    let c = content();
    let mut queue = OrderQueue::default();
    queue.push_at(2, SignedOrder::from(go(&[1])));
    let mut log = CommandLog::new(3);
    let mut stock = Stockpiles::starting(200);
    let ids = registry(4);
    let out = apply_commands(&mut queue, 7, &mut log, &c, &mut stock, &world(), Some(&ids));
    assert!(out.is_empty());
    assert_eq!(log.late(), 1);
    assert_eq!(log.commands()[0].fate, CommandFate::Late);
    assert_eq!(log.commands()[0].schedule, CommandTick::At(2));
}

#[test]
fn names_are_issued_once() {
    let mut ids = SimIds::default();
    let (a, b) = (Entity { bits: 40 }, Entity { bits: 41 });
    assert_eq!(ids.issue(a), SimId(0));
    assert_eq!(ids.issue(b), SimId(1));
    assert_eq!(ids.issue(a), SimId(0));
    assert_eq!(ids.id_of(b), Some(SimId(1)));
    assert_eq!(ids.entity_of(SimId(1)), Some(b));
    assert_eq!(ids.entity_of(SimId(2)), None);
    assert_eq!(ids.id_of(Entity { bits: 42 }), None);
    assert_eq!(ids.len(), 2);
    // A sweep of the world names what is new, by ascending entity.
    let all = |bits: &[u64]| bits.iter().map(|b| Entity { bits: *b }).collect::<Vec<_>>();
    let mut other = ids.clone();
    ids.identify(&all(&[60, 40, 50, 41]));
    other.identify(&all(&[41, 60, 50, 40]));
    for e in all(&[40, 41, 50, 60]) {
        assert_eq!(ids.id_of(e), other.id_of(e));
    }
    assert_eq!(ids.id_of(Entity { bits: 50 }), Some(SimId(2)));
    assert_eq!(ids.id_of(Entity { bits: 60 }), Some(SimId(3)));
}

// ---- the log ----------------------------------------------------------------

#[test]
fn entity_bits_are_checked() {
    assert_eq!(Entity::try_from_bits(7), Some(Entity { bits: 7 }));
    assert_eq!(Entity::try_from_bits(0), None);
    assert_eq!(Entity::try_from_bits(5 << 32), None);
    let high = (5 << 32) | 3;
    assert_eq!(Entity::try_from_bits(high).unwrap().to_bits(), high);
}

#[test]
fn logged_orders_come_back() {
    let logged = LoggedOrder::of(&go(&[1, 2])).unwrap();
    match logged.to_order().unwrap() {
        Order::MoveTo { units, dest } => {
            assert_eq!(units, vec![Entity { bits: 1 }, Entity { bits: 2 }]);
            assert_eq!(dest, point(5.0, 5.0));
        }
        other => panic!("{other:?}"),
    }
    assert!(LoggedOrder::of(&go(&[1]).issued_by(Faction::A)).is_none());
    let bad = LoggedOrder::Train { building: 0, unit: 1 };
    assert_eq!(bad.to_order().unwrap_err(), "log: invalid entity bits 0");
}

#[test]
fn a_log_is_checked_before_it_is_written_and_after_it_is_read() {
    let mut log = CommandLog::new(5);
    let record = |log: &mut CommandLog, tick: u32, order: Order| {
        log.record(
            tick,
            CommandTick::Asap,
            CommandFate::Taken,
            Attribution::SelfSigned,
            &order,
        )
    };
    record(&mut log, 3, go(&[1]));
    record(&mut log, 3, go(&[2]));
    record(&mut log, 8, go(&[3]));
    assert_eq!(log.log().at(3), vec![0, 1]);
    assert_eq!(log.log().check_writable(), Ok(()));
    assert_eq!(log.log().check_readable(), Ok(()));
    record(&mut log, 6, go(&[4]));
    assert_eq!(
        log.log().check_readable().unwrap_err(),
        "log: tick 6 follows tick 8 — commands are out of order"
    );
    // What could not be read back is not written either.
    assert_eq!(
        log.log().check_writable().unwrap_err(),
        "log: tick 6 follows tick 8 — commands are out of order"
    );
    let mut nobody = CommandLog::new(5);
    let building = Entity { bits: 0 };
    record(&mut nobody, 4, Order::Train { building, unit: 0 });
    assert_eq!(
        nobody.log().check_readable().unwrap_err(),
        "log: invalid entity bits 0"
    );
    assert_eq!(
        nobody.log().check_writable().unwrap_err(),
        "log: invalid entity bits 0"
    );
    let mut odd = CommandLog::new(5);
    record(
        &mut odd,
        4,
        Order::MoveTo {
            units: vec![],
            dest: point(0.0, f32::NEG_INFINITY),
        },
    );
    assert_eq!(
        odd.log().check_writable().unwrap_err(),
        "log: non-finite coordinate -inf in the command at tick 4"
    );
    let mut old = MatchLog::new(1);
    old.version = 9;
    assert_eq!(old.check_readable().unwrap_err(), "log: format version 9 is not 1");
    assert_eq!(
        old.check_writable().unwrap_err(),
        "log: refusing to write format version 9 (this build writes 1)"
    );
}

// ---- the panel --------------------------------------------------------------

#[test]
fn the_panel_says_what_is_selected() {
    let c = content();
    let none: Vec<UnitKind> = vec![];
    assert_eq!(
        options_text(&c, 75, Some((0, 2)), None, &none),
        "Alloy: 75\nHQ selected — 2 in production\n[1] Worker (50)"
    );
    assert_eq!(
        options_text(&c, 75, None, Some(1500), &none),
        "Alloy: 75\nResource node selected — 1500 left\n[G] Gather   [Q] Queue gather"
    );
    assert_eq!(
        options_text(
            &c,
            75,
            None,
            None,
            &vec![UnitKind::Scout, UnitKind::Worker, UnitKind::Worker]
        ),
        "2 Worker, 1 Scout  selected  —  right-click: move / gather resource"
    );
    assert_eq!(options_text(&c, 75, None, None, &none), "");
    // A building that the content does not define shows as nothing.
    assert_eq!(options_text(&c, 75, Some((9, 0)), None, &none), "");
}
