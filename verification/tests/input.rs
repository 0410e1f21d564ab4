//! Tests of selection and orders: clicks, boxes, double clicks, right clicks.

use onus::client::half_extent;
use onus::float::{Point, F32};
use onus::input::{emit_commands, pick, selection, ClickTracker, DragState, Gesture, Pickable};
use onus::sim::command::{apply_commands, Effect};
use onus::sim::content::{
    Acquisition, AiDef, ArmyItem, BuildingDef, CombatDef, Content, Cost, EconomyDef, NemesisBonus,
    Opening, ResourceDef, StrategyDef, UnitDef,
};
use onus::sim::economy::Stockpiles;
use onus::sim::movement::step_toward;
use onus::sim::orders::{CommandQueue, Order, SignedOrder};
use onus::sim::replay::CommandLog;
use onus::sim::world::{Entity, Row, World};
use onus::sim::UnitKind;

fn num(x: f32) -> F32 {
    F32 { bits: x.to_bits() }
}

fn point(x: f32, y: f32) -> Point {
    Point { x: num(x), y: num(y) }
}

fn unit(id: &str, name: &str, kind: UnitKind, stats: [u32; 4], nemesis: Option<&str>) -> UnitDef {
    let [offense, defense, armor, speed] = stats;
    let gathers = kind == UnitKind::Worker;
    UnitDef {
        id: id.to_string(),
        name: name.to_string(),
        source: if gathers { Some("hq".to_string()) } else { None },
        barracks: if gathers { None } else { Some("foundry".to_string()) },
        cost: Cost {
            resource: "alloy".to_string(),
            amount: 50,
        },
        mvp_kind: kind,
        mvp_alloy_cost: if gathers { 50 } else { 100 },
        mvp_train_ticks: if gathers { 60 } else { 120 },
        mvp_carry_capacity: if gathers { 10 } else { 0 },
        mvp_gather_ticks: if gathers { 30 } else { 0 },
        mvp_attack_ticks: if offense > 0 { 30 } else { 0 },
        mvp_attack_range: num(if offense > 0 { 40.0 } else { 0.0 }),
        speed,
        offense,
        defense,
        armor,
        nemesis: nemesis.map(|s| s.to_string()),
        gathers,
        builds: gathers,
    }
}

fn building(id: &str, produces: &[&str], victory: bool) -> BuildingDef {
    BuildingDef {
        id: id.to_string(),
        name: id.to_uppercase(),
        alloy_cost: 150,
        produces: produces.iter().map(|s| s.to_string()).collect(),
        dropoff: victory,
        victory,
        mvp_defense: 9,
        mvp_armor: 3,
    }
}

fn army() -> Vec<ArmyItem> {
    vec![
        ArmyItem {
            unit: "bulwark".to_string(),
            count: 2,
        },
        ArmyItem {
            unit: "ravager".to_string(),
            count: 1,
        },
    ]
}

fn strategy(id: &str) -> StrategyDef {
    StrategyDef {
        id: id.to_string(),
        think_interval_ticks: 15,
        worker_target: 5,
        barracks: vec![Opening {
            building: "foundry".to_string(),
            at_tick: 0,
            offset: num(120.0),
        }],
        army: army(),
        attack_at_army: 2,
        attack_interval_ticks: 300,
        attack_spread: num(30.0),
    }
}

/// A small roster with the stats that the tests speak of.
fn content() -> Content {
    Content {
        units: vec![
            unit("worker", "Worker", UnitKind::Worker, [0, 2, 0, 5], None),
            unit("bulwark", "Bulwark", UnitKind::Soldier, [4, 9, 9, 2], Some("ravager")),
            unit("ravager", "Ravager", UnitKind::Soldier, [7, 6, 4, 5], Some("sentinel")),
            unit("sentinel", "Sentinel", UnitKind::Scout, [5, 5, 5, 6], Some("arclight")),
            unit("arclight", "Arclight", UnitKind::Soldier, [9, 3, 1, 4], Some("bulwark")),
        ],
        buildings: vec![
            building("hq", &["worker"], true),
            building("foundry", &["bulwark", "ravager", "sentinel", "arclight"], false),
        ],
        combat: CombatDef {
            hp_per_defense: 20,
            damage_per_offense: 5,
            mitigation_per_armor: 2,
            speed_per_point: num(12.0),
            engage_range: num(150.0),
            max_stat: 10,
            building_hp_per_defense: 100,
            pursue_range: num(300.0),
        },
        nemesis_bonus: NemesisBonus {
            damage_mult: num(1.3),
            ignore_armor: true,
        },
        ai: AiDef {
            think_interval_ticks: 15,
            worker_target: 5,
            barracks: "foundry".to_string(),
            barracks_at_tick: 0,
            barracks_offset: num(120.0),
            army: army(),
            attack_at_army: 2,
            attack_interval_ticks: 300,
            attack_spread: num(30.0),
        },
        strategies: vec![strategy("standard"), strategy("rush")],
        default_strategy: "standard".to_string(),
        resources: vec![ResourceDef {
            id: "alloy".to_string(),
            name: "Alloy".to_string(),
            domain: "ground".to_string(),
            building: "hq".to_string(),
            acquisition: Acquisition::Mined,
            powers: vec!["units".to_string()],
        }],
        mvp_active: vec!["alloy".to_string()],
        economy: EconomyDef {
            currency: "alloy".to_string(),
            starting_alloy: 200,
            gather_range: num(20.0),
            deposit_range: num(40.0),
        },
    }
}

// ---- a world to click in ----------------------------------------------------

struct Thing {
    kind: Option<UnitKind>,
    pos: (f32, f32),
    selected: bool,
    move_target: Option<Point>,
    gather_target: Option<Entity>,
}

struct App {
    things: Vec<Thing>,
    drag: DragState,
    clicks: ClickTracker,
    queue: CommandQueue,
    now: f32,
}

fn test_app() -> App {
    App {
        things: Vec::new(),
        drag: DragState::default(),
        clicks: ClickTracker::default(),
        queue: CommandQueue::default(),
        now: 0.0,
    }
}

fn spawn(app: &mut App, kind: Option<UnitKind>, x: f32, y: f32) -> usize {
    app.things.push(Thing {
        kind,
        pos: (x, y),
        selected: false,
        move_target: None,
        gather_target: None,
    });
    app.things.len() - 1
}

fn spawn_unit(app: &mut App, kind: UnitKind, x: f32, y: f32) -> usize {
    spawn(app, Some(kind), x, y)
}

fn spawn_resource(app: &mut App, x: f32, y: f32) -> usize {
    spawn(app, None, x, y)
}

fn entity(i: usize) -> Entity {
    Entity { bits: i as u64 + 1 }
}

fn rows(app: &App, cursor: (f32, f32)) -> Vec<Pickable> {
    app.things
        .iter()
        .enumerate()
        .map(|(i, t)| {
            let (dx, dy) = (cursor.0 - t.pos.0, cursor.1 - t.pos.1);
            Pickable {
                entity: entity(i),
                kind: t.kind,
                node: t.kind.is_none(),
                selected: t.selected,
                pos: point(t.pos.0, t.pos.1),
                offset: point(dx.abs(), dy.abs()),
                squared: num(dx * dx + dy * dy),
            }
        })
        .collect()
}

fn release(app: &mut App, to: (f32, f32), shift: bool) {
    let start = app.drag.release(point(to.0, to.1));
    let from = (f32::from_bits(start.x.bits), f32::from_bits(start.y.bits));
    let (min, max) = (
        (from.0.min(to.0), from.1.min(to.1)),
        (from.0.max(to.0), from.1.max(to.1)),
    );
    let length = ((max.0 - min.0).powi(2) + (max.1 - min.1).powi(2)).sqrt();
    app.now += 0.1;
    let gesture = Gesture::of(
        point(min.0, min.1),
        point(max.0, max.1),
        num(length),
        num(app.now),
        num(app.now - f32::from_bits(app.clicks.last_time.bits)),
    );
    let chosen = selection(&rows(app, to), gesture, shift, &mut app.clicks);
    for (t, s) in app.things.iter_mut().zip(chosen) {
        t.selected = s;
    }
}

fn left_click(app: &mut App, x: f32, y: f32, shift: bool) {
    app.drag.press(point(x, y));
    release(app, (x, y), shift);
}

fn box_drag(app: &mut App, from: (f32, f32), to: (f32, f32), shift: bool) {
    app.drag.press(point(from.0, from.1));
    release(app, to, shift);
}

fn right_click(app: &mut App, x: f32, y: f32) {
    if let Some(order) = emit_commands(&rows(app, (x, y)), point(x, y)) {
        app.queue.0.push_back(SignedOrder::from(order));
    }
    let world = World {
        rows: app
            .things
            .iter()
            .enumerate()
            .map(|(i, t)| Row {
                entity: entity(i),
                owner: None,
                unit_def: t.kind.map(|k| if k == UnitKind::Worker { 0 } else { 1 }),
                producer_def: None,
            })
            .collect(),
    };
    let mut log = CommandLog::new(0);
    let mut stock = Stockpiles::starting(0);
    let content = content();
    for effect in apply_commands(
        &mut app.queue.0,
        0,
        &mut log,
        &content,
        &mut stock,
        &world,
        None,
    ) {
        match effect {
            Effect::Move { unit, dest } => {
                let t = &mut app.things[unit.bits as usize - 1];
                t.move_target = Some(dest);
                t.gather_target = None;
            }
            Effect::Gather { unit, dest, job } => {
                let t = &mut app.things[unit.bits as usize - 1];
                t.move_target = Some(dest);
                t.gather_target = job;
            }
            other => panic!("{other:?}"),
        }
    }
}

fn is_selected(app: &App, i: usize) -> bool {
    app.things[i].selected
}

fn selected_kinds(app: &App) -> Vec<UnitKind> {
    app.things
        .iter()
        .filter(|t| t.selected)
        .filter_map(|t| t.kind)
        .collect()
}

// ---- tests ------------------------------------------------------------------

#[test]
fn click_selects_unit_then_empty_deselects() {
    let mut app = test_app();
    let w = spawn_unit(&mut app, UnitKind::Worker, 0.0, 0.0);

    left_click(&mut app, 0.0, 0.0, false);
    assert!(is_selected(&app, w), "clicking a unit selects it");

    left_click(&mut app, 500.0, 500.0, false);
    assert!(!is_selected(&app, w), "clicking empty ground deselects");
}

#[test]
fn shift_click_adds_and_removes() {
    let mut app = test_app();
    let a = spawn_unit(&mut app, UnitKind::Worker, 0.0, 0.0);
    let b = spawn_unit(&mut app, UnitKind::Soldier, 100.0, 0.0);

    left_click(&mut app, 0.0, 0.0, false);
    left_click(&mut app, 100.0, 0.0, true); // shift-add b
    assert!(is_selected(&app, a) && is_selected(&app, b), "shift adds to selection");

    left_click(&mut app, 100.0, 0.0, true); // shift-remove b
    assert!(is_selected(&app, a) && !is_selected(&app, b), "shift toggles off");
}

#[test]
fn box_drag_selects_units_but_not_resources() {
    let mut app = test_app();
    let inside_a = spawn_unit(&mut app, UnitKind::Worker, 0.0, 0.0);
    let inside_b = spawn_unit(&mut app, UnitKind::Soldier, 50.0, 0.0);
    let outside = spawn_unit(&mut app, UnitKind::Scout, 500.0, 500.0);
    let node = spawn_resource(&mut app, 10.0, 10.0); // inside the rect

    box_drag(&mut app, (-100.0, -100.0), (100.0, 100.0), false);

    assert!(
        is_selected(&app, inside_a) && is_selected(&app, inside_b),
        "units in rect selected"
    );
    assert!(!is_selected(&app, outside), "unit outside rect not selected");
    assert!(!is_selected(&app, node), "resources are not box-selected");
}

#[test]
fn double_click_selects_all_of_type() {
    let mut app = test_app();
    let w1 = spawn_unit(&mut app, UnitKind::Worker, 0.0, 0.0);
    let w2 = spawn_unit(&mut app, UnitKind::Worker, 60.0, 0.0);
    let w3 = spawn_unit(&mut app, UnitKind::Worker, -60.0, 0.0);
    let s = spawn_unit(&mut app, UnitKind::Soldier, 200.0, 0.0);

    left_click(&mut app, 0.0, 0.0, false); // first click
    left_click(&mut app, 0.0, 0.0, false); // second click on same unit → double

    assert!(
        is_selected(&app, w1) && is_selected(&app, w2) && is_selected(&app, w3),
        "double-click selects every worker"
    );
    assert!(!is_selected(&app, s), "other types are not selected");
    assert_eq!(selected_kinds(&app).len(), 3);
}

#[test]
fn right_click_ground_moves_selection() {
    let mut app = test_app();
    let w = spawn_unit(&mut app, UnitKind::Worker, 0.0, 0.0);

    left_click(&mut app, 0.0, 0.0, false);
    right_click(&mut app, 300.0, 0.0);

    assert_eq!(
        app.things[w].move_target,
        Some(point(300.0, 0.0)),
        "move order sets MoveTarget"
    );
    assert!(app.things[w].gather_target.is_none(), "a move clears any gather intent");
}

#[test]
fn right_click_resource_assigns_gather() {
    let mut app = test_app();
    let w = spawn_unit(&mut app, UnitKind::Worker, 0.0, 0.0);
    let node = spawn_resource(&mut app, 400.0, 0.0);

    left_click(&mut app, 0.0, 0.0, false);
    right_click(&mut app, 400.0, 0.0);

    assert_eq!(
        app.things[w].move_target,
        Some(point(400.0, 0.0)),
        "gather moves the unit to the node"
    );
    assert_eq!(
        app.things[w].gather_target,
        Some(entity(node)),
        "gather order records the gather target"
    );
}

/// One step from the origin along the x axis.
fn step(target: (f32, f32), step: f32) -> ((f32, f32), bool) {
    let distance = (target.0 * target.0 + target.1 * target.1).sqrt();
    let ahead = (target.0 / distance * step, target.1 / distance * step);
    let (p, arrived) = step_toward(
        point(target.0, target.1),
        num(distance),
        num(step),
        point(ahead.0, ahead.1),
    );
    ((f32::from_bits(p.x.bits), f32::from_bits(p.y.bits)), arrived)
}

#[test]
fn mod_step_toward_snaps_on_arrival() {
    // Overshoot within one step → snap to target and report arrival.
    let (pos, arrived) = step((1.0, 0.0), 100.0);
    assert!(arrived && pos == (1.0, 0.0));

    // Far away → advance exactly `step` along the direction, not arrived.
    let (pos, arrived) = step((100.0, 0.0), 10.0);
    assert!(!arrived);
    assert!((pos.0 - 10.0).abs() < 1e-4 && pos.1.abs() < 1e-4);
}

#[test]
fn tests_step_toward_snaps_on_arrival() {
    // Overshoot within one step → snap to target and report arrival.
    let (pos, arrived) = step((1.0, 0.0), 100.0);
    assert!(arrived && pos == (1.0, 0.0));

    // Far away → advance exactly `step` along the direction, not arrived.
    let (pos, arrived) = step((100.0, 0.0), 10.0);
    assert!(!arrived);
    assert!((pos.0 - 10.0).abs() < 1e-4 && pos.1.abs() < 1e-4);
}

#[test]
fn a_unit_close_to_its_target_stops_there() {
    // Within the stopping distance even a tiny step arrives.
    assert!(step((0.9, 0.0), 0.01).1);
    assert!(!step((1.1, 0.0), 0.01).1);
}

#[test]
fn a_pick_takes_the_nearest_centre() {
    let mut app = test_app();
    spawn_unit(&mut app, UnitKind::Worker, 6.0, 0.0);
    let near = spawn_unit(&mut app, UnitKind::Worker, 2.0, 0.0);
    assert_eq!(pick(&rows(&app, (0.0, 0.0))), Some(near));
    assert_eq!(pick(&rows(&app, (300.0, 0.0))), None);
    assert_eq!(f32::from_bits(half_extent(None).bits), 17.0);
}

#[test]
fn an_order_needs_a_selection() {
    let mut app = test_app();
    let w = spawn_unit(&mut app, UnitKind::Worker, 0.0, 0.0);
    assert!(emit_commands(&rows(&app, (9.0, 9.0)), point(9.0, 9.0)).is_none());
    app.things[w].selected = true;
    match emit_commands(&rows(&app, (90.0, 9.0)), point(90.0, 9.0)) {
        Some(Order::MoveTo { units, .. }) => assert_eq!(units, vec![entity(w)]),
        other => panic!("{other:?}"),
    }
}

#[test]
fn a_slow_second_click_selects_one() {
    let mut app = test_app();
    let w1 = spawn_unit(&mut app, UnitKind::Worker, 0.0, 0.0);
    let w2 = spawn_unit(&mut app, UnitKind::Worker, 60.0, 0.0);
    left_click(&mut app, 0.0, 0.0, false);
    app.now += 1.0;
    left_click(&mut app, 0.0, 0.0, false);
    assert!(is_selected(&app, w1) && !is_selected(&app, w2));
    // With shift a box adds to what is selected.
    box_drag(&mut app, (40.0, -10.0), (80.0, 10.0), true);
    assert!(is_selected(&app, w1) && is_selected(&app, w2));
}
