//! Tests of the two-player link: frames, the handshake, turns, hashes, stalls.

use onus::float::{Point, F32};
use onus::sim::content::{
    Acquisition, AiDef, ArmyItem, BuildingDef, CombatDef, Content, Cost, EconomyDef, NemesisBonus,
    Opening, ResourceDef, StrategyDef, UnitDef,
};
use onus::sim::UnitKind;
use onus::net::connection::{Got, Next, Wrote};
use onus::net::frame::{encode, Inbox};
use onus::net::wire::{resolve_order, wire_order};
use onus::net::{Connection, Frame, LinkFailure, NetConfig, NetLink, WireCommand, PROTOCOL_VERSION};
use onus::sim::orders::{Attribution, CommandTick, Order, OrderQueue, SignedOrder};
use onus::sim::registry::SimIds;
use onus::sim::replay::{LoggedOrder, TickGate};
use onus::sim::spatial::Faction;
use onus::sim::world::Entity;

fn num(x: f32) -> F32 {
    F32 { bits: x.to_bits() }
}

fn point(x: f32, y: f32) -> Point {
    Point { x: num(x), y: num(y) }
}

fn unit(id: &str, name: &str, kind: UnitKind, stats: [u32; 4], nemesis: Option<&str>) -> UnitDef {
    let [offense, defense, armor, speed] = stats;
    let gathers = kind == UnitKind::Worker;
    UnitDef {
        id: id.to_string(),
        name: name.to_string(),
        source: if gathers { Some("hq".to_string()) } else { None },
        barracks: if gathers { None } else { Some("foundry".to_string()) },
        cost: Cost {
            resource: "alloy".to_string(),
            amount: 50,
        },
        mvp_kind: kind,
        mvp_alloy_cost: if gathers { 50 } else { 100 },
        mvp_train_ticks: if gathers { 60 } else { 120 },
        mvp_carry_capacity: if gathers { 10 } else { 0 },
        mvp_gather_ticks: if gathers { 30 } else { 0 },
        mvp_attack_ticks: if offense > 0 { 30 } else { 0 },
        mvp_attack_range: num(if offense > 0 { 40.0 } else { 0.0 }),
        speed,
        offense,
        defense,
        armor,
        nemesis: nemesis.map(|s| s.to_string()),
        gathers,
        builds: gathers,
    }
}

fn building(id: &str, produces: &[&str], victory: bool) -> BuildingDef {
    BuildingDef {
        id: id.to_string(),
        name: id.to_uppercase(),
        alloy_cost: 150,
        produces: produces.iter().map(|s| s.to_string()).collect(),
        dropoff: victory,
        victory,
        mvp_defense: 9,
        mvp_armor: 3,
    }
}

fn army() -> Vec<ArmyItem> {
    vec![
        ArmyItem {
            unit: "bulwark".to_string(),
            count: 2,
        },
        ArmyItem {
            unit: "ravager".to_string(),
            count: 1,
        },
    ]
}

fn strategy(id: &str) -> StrategyDef {
    StrategyDef {
        id: id.to_string(),
        think_interval_ticks: 15,
        worker_target: 5,
        barracks: vec![Opening {
            building: "foundry".to_string(),
            at_tick: 0,
            offset: num(120.0),
        }],
        army: army(),
        attack_at_army: 2,
        attack_interval_ticks: 300,
        attack_spread: num(30.0),
    }
}

/// A small roster with the stats that the tests speak of.
fn content() -> Content {
    Content {
        units: vec![
            unit("worker", "Worker", UnitKind::Worker, [0, 2, 0, 5], None),
            unit("bulwark", "Bulwark", UnitKind::Soldier, [4, 9, 9, 2], Some("ravager")),
            unit("ravager", "Ravager", UnitKind::Soldier, [7, 6, 4, 5], Some("sentinel")),
            unit("sentinel", "Sentinel", UnitKind::Scout, [5, 5, 5, 6], Some("arclight")),
            unit("arclight", "Arclight", UnitKind::Soldier, [9, 3, 1, 4], Some("bulwark")),
        ],
        buildings: vec![
            building("hq", &["worker"], true),
            building("foundry", &["bulwark", "ravager", "sentinel", "arclight"], false),
        ],
        combat: CombatDef {
            hp_per_defense: 20,
            damage_per_offense: 5,
            mitigation_per_armor: 2,
            speed_per_point: num(12.0),
            engage_range: num(150.0),
            max_stat: 10,
            building_hp_per_defense: 100,
            pursue_range: num(300.0),
        },
        nemesis_bonus: NemesisBonus {
            damage_mult: num(1.3),
            ignore_armor: true,
        },
        ai: AiDef {
            think_interval_ticks: 15,
            worker_target: 5,
            barracks: "foundry".to_string(),
            barracks_at_tick: 0,
            barracks_offset: num(120.0),
            army: army(),
            attack_at_army: 2,
            attack_interval_ticks: 300,
            attack_spread: num(30.0),
        },
        strategies: vec![strategy("standard"), strategy("rush")],
        default_strategy: "standard".to_string(),
        resources: vec![ResourceDef {
            id: "alloy".to_string(),
            name: "Alloy".to_string(),
            domain: "ground".to_string(),
            building: "hq".to_string(),
            acquisition: Acquisition::Mined,
            powers: vec!["units".to_string()],
        }],
        mvp_active: vec!["alloy".to_string()],
        economy: EconomyDef {
            currency: "alloy".to_string(),
            starting_alloy: 200,
            gather_range: num(20.0),
            deposit_range: num(40.0),
        },
    }
}

// ---- frames -----------------------------------------------------------------

#[test]
fn a_frame_is_its_length_and_its_text() {
    assert_eq!(encode("ab").unwrap(), vec![2, 0, 0, 0, b'a', b'b']);
    assert_eq!(encode("").unwrap(), vec![0, 0, 0, 0]);
    assert_eq!(encode("é").unwrap(), vec![2, 0, 0, 0, 0xc3, 0xa9]);
}

#[test]
fn frames_come_back_whole_and_in_order() {
    let mut bytes = encode("(one)").unwrap();
    bytes.extend(encode("").unwrap());
    bytes.extend(encode("zwölf").unwrap());
    let mut inbox = Inbox::default();
    let mut got = Vec::new();
    for b in bytes {
        // Byte by byte: part of a frame waits.
        inbox.feed(&[b]);
        while let Some(t) = inbox.next_text().unwrap() {
            got.push(t);
        }
    }
    assert_eq!(got, vec!["(one)", "", "zwölf"]);
}

#[test]
fn bytes_that_are_no_text_are_refused() {
    let mut inbox = Inbox::default();
    inbox.feed(&[2, 0, 0, 0, b'a', 0xff]);
    assert_eq!(
        inbox.next_text().unwrap_err(),
        "net: frame is not text: invalid utf-8 sequence of 1 bytes from index 1"
    );
}

#[test]
fn no_byte_is_lost_however_the_socket_takes_them() {
    let (mut a, mut b) = (Connection::default(), Connection::default());
    a.send("(first)").unwrap();
    a.send("second").unwrap();
    let mut answers = 0;
    let mut got = Vec::new();
    loop {
        answers += 1;
        let n = a.unsent().len().min(3);
        let sent = a.unsent()[..n].to_vec();
        let next = match answers % 3 {
            0 => a.wrote(Wrote::Interrupted),
            1 => a.wrote(Wrote::Full),
            _ => {
                assert!(matches!(b.got(Got::Bytes(sent)), Next::Again));
                a.wrote(Wrote::Taken(n))
            }
        };
        while let Some(t) = b.next_text().unwrap() {
            got.push(t);
        }
        if a.unsent().is_empty() {
            assert!(matches!(next, Next::Done));
            break;
        }
    }
    assert_eq!(got, vec!["(first)", "second"]);
    assert!(!a.is_closed() && !b.is_closed());
    assert!(matches!(b.got(Got::Nothing), Next::Done));
    assert!(matches!(b.got(Got::Interrupted), Next::Again));
}

#[test]
fn the_end_of_a_connection_closes_it() {
    let lost = |n: Next| match n {
        Next::Lost(m) => m,
        other => panic!("{other:?}"),
    };
    let mut a = Connection::default();
    a.send("x").unwrap();
    assert_eq!(lost(a.wrote(Wrote::Taken(0))), "net: the peer closed the connection");
    assert!(a.is_closed());
    assert_eq!(a.unsent().len(), 5);
    let mut b = Connection::default();
    assert_eq!(lost(b.wrote(Wrote::Broken("reset".to_string()))), "net: send failed: reset");
    assert!(b.is_closed());
    let mut c = Connection::default();
    assert!(matches!(c.got(Got::Bytes(vec![])), Next::Done));
    assert!(c.is_closed());
    let mut d = Connection::default();
    assert_eq!(lost(d.got(Got::Broken("reset".to_string()))), "net: receive failed: reset");
    assert!(d.is_closed());
}

#[test]
fn a_bad_configuration_is_refused() {
    let d = NetConfig::default();
    assert_eq!(d.validate(), Ok(()));
    let bad = |c: NetConfig| NetLink::new(Faction::A, c).unwrap_err();
    assert_eq!(
        bad(NetConfig { turn_delay_ticks: 0, ..d }),
        "net config: turn_delay_ticks must be at least 1"
    );
    assert_eq!(
        bad(NetConfig { hash_interval_ticks: 0, ..d }),
        "net config: hash_interval_ticks must be at least 1"
    );
    assert_eq!(
        bad(NetConfig { stall_timeout_secs: num(f32::NAN), ..d }),
        "net config: stall_timeout_secs must be a positive number"
    );
}

// ---- the wire ---------------------------------------------------------------

/// Registries in which the same things have different entities.
fn ids(shift: u64) -> SimIds {
    let mut ids = SimIds::default();
    for k in 0..4 {
        ids.issue(Entity { bits: shift + k });
    }
    ids
}

fn go(units: &[u64]) -> Order {
    Order::MoveTo {
        units: units.iter().map(|b| Entity { bits: *b }).collect(),
        dest: point(1.0, 2.0),
    }
}

#[test]
fn an_order_means_the_same_on_the_other_side() {
    let sent = wire_order(&ids(10), &go(&[11, 13])).unwrap();
    match &sent {
        LoggedOrder::MoveTo { units, .. } => assert_eq!(units, &vec![1, 3]),
        other => panic!("{other:?}"),
    }
    match resolve_order(&ids(50), &content(), &sent).unwrap() {
        Order::MoveTo { units, .. } => {
            assert_eq!(units, vec![Entity { bits: 51 }, Entity { bits: 53 }])
        }
        other => panic!("{other:?}"),
    }
    assert!(wire_order(&ids(10), &go(&[11]).issued_by(Faction::A)).is_none());
}

#[test]
fn what_cannot_be_resolved_is_named() {
    let no = |o: LoggedOrder| resolve_order(&ids(10), &content(), &o).unwrap_err();
    assert_eq!(
        no(LoggedOrder::MoveTo {
            units: vec![0, 9],
            dest: point(0.0, 0.0)
        }),
        "no entity has the id 9"
    );
    assert_eq!(
        no(LoggedOrder::Place {
            faction: Faction::A,
            building: 7,
            pos: point(0.0, 0.0)
        }),
        "no building definition 7"
    );
    assert_eq!(
        no(LoggedOrder::Train {
            building: 0,
            unit: 77
        }),
        "no unit definition 77"
    );
}

// ---- the link ---------------------------------------------------------------

struct Peer {
    link: NetLink,
    ids: SimIds,
    queue: OrderQueue,
    open: bool,
    sent: Vec<Frame>,
}

fn peer(me: Faction, shift: u64) -> Peer {
    let config = NetConfig {
        turn_delay_ticks: 2,
        hash_interval_ticks: 2,
        stall_timeout_secs: num(10.0),
    };
    Peer {
        link: NetLink::new(me, config).unwrap(),
        ids: ids(shift),
        queue: OrderQueue::default(),
        open: false,
        sent: Vec::new(),
    }
}

fn pump(p: &mut Peer, now: u32, seed: u64, hashes: &Vec<u64>, arrived: Vec<Frame>, waited: f32) {
    let mut gate = TickGate { open: p.open };
    let out = p.link.pump(
        now,
        seed,
        &content(),
        &p.ids,
        Some(hashes),
        Ok(arrived),
        false,
        num(waited),
        &mut p.queue,
        &mut gate,
    );
    p.open = gate.open;
    p.sent.extend(out);
}

fn take(p: &mut Peer) -> Vec<Frame> {
    std::mem::take(&mut p.sent)
}

/// Both sides at one tick, exchanging until neither has more to say.
fn exchange(a: &mut Peer, b: &mut Peer, now: u32, hashes: [&Vec<u64>; 2]) {
    for _ in 0..3 {
        let from_b = take(b);
        pump(a, now, 7, hashes[0], from_b, 0.0);
        let from_a = take(a);
        pump(b, now, 7, hashes[1], from_a, 0.0);
    }
}

/// What a tick took from the queue: who ordered, and which things by name.
type Played = (u32, Attribution, Vec<u64>);

/// Pump once and, where the tick may run, run it.
fn step(p: &mut Peer, now: &mut u32, base: u64, arrived: Vec<Frame>, log: &mut Vec<Played>) {
    let hashes = vec![5; *now as usize];
    pump(p, *now, 7, &hashes, arrived, 0.0);
    assert!(p.link.failure().is_none(), "{:?}", p.link.failure());
    if !p.open {
        assert!(p.queue.is_empty(), "no local command slips through");
        return;
    }
    for c in p.queue.take_due(*now) {
        assert!(!c.late);
        assert_eq!(c.schedule, CommandTick::At(*now));
        match c.order.order() {
            Order::MoveTo { units, .. } => log.push((
                *now,
                c.order.attribution(),
                units.iter().map(|e| e.bits - base).collect(),
            )),
            other => panic!("{other:?}"),
        }
    }
    assert!(p.queue.is_empty());
    *now += 1;
}

#[test]
fn two_peers_play_the_same_commands_on_the_same_ticks() {
    let (mut a, mut b) = (peer(Faction::A, 10), peer(Faction::B, 50));
    let (mut at_a, mut at_b) = (0, 0);
    let (mut log_a, mut log_b) = (Vec::new(), Vec::new());
    for round in 0..20 {
        if round == 3 {
            a.queue.push_back(SignedOrder::from(go(&[11]).issued_by(Faction::A)));
            b.queue.push_back(SignedOrder::from(go(&[53, 51]).issued_by(Faction::B)));
        }
        let from_b = take(&mut b);
        step(&mut a, &mut at_a, 10, from_b, &mut log_a);
        // One side pumps every other round: the fast one waits for it.
        if round % 2 == 0 {
            continue;
        }
        let from_a = take(&mut a);
        step(&mut b, &mut at_b, 50, from_a, &mut log_b);
    }
    assert!(at_a > 6 && at_b > 6, "{at_a} {at_b}");
    assert_eq!(log_a, log_b);
    assert_eq!(log_a.len(), 2);
    assert!(log_a.contains(&(log_a[0].0, Attribution::By(Faction::A), vec![1])));
    assert!(log_a.iter().any(|p| p.1 == Attribution::By(Faction::B) && p.2 == vec![3, 1]));
    assert!(a.link.hashes_agreed() > 0);
    assert_eq!(a.link.peer(), Some(Faction::B));
    assert_eq!(a.link.me(), Faction::A);
}

#[test]
fn a_different_hash_stops_the_link() {
    let (mut a, mut b) = (peer(Faction::A, 10), peer(Faction::B, 50));
    for now in 0..6 {
        let (ours, theirs) = (vec![5; now as usize], vec![6; now as usize]);
        exchange(&mut a, &mut b, now, [&ours, &theirs]);
    }
    match a.link.failure() {
        Some(LinkFailure::Desync { ours, theirs, .. }) => assert_eq!((*ours, *theirs), (5, 6)),
        other => panic!("{other:?}"),
    }
    assert!(!a.open && !b.open);
}

fn hello(protocol: u32, faction: Faction, seed: u64, c: &Content) -> Frame {
    Frame::Hello {
        protocol,
        faction,
        seed,
        content: c.fingerprint(),
    }
}

fn handshake(f: Frame) -> String {
    let mut a = peer(Faction::A, 10);
    pump(&mut a, 0, 7, &vec![], vec![f], 0.0);
    assert!(!a.open);
    match a.link.failure() {
        Some(LinkFailure::Handshake(m)) => m.clone(),
        other => panic!("{other:?}"),
    }
}

#[test]
fn a_misfitting_peer_is_refused() {
    let c = content();
    assert_eq!(
        handshake(hello(9, Faction::B, 7, &c)),
        format!("peer speaks protocol 9, this build speaks {PROTOCOL_VERSION}")
    );
    assert_eq!(
        handshake(hello(PROTOCOL_VERSION, Faction::A, 7, &c)),
        "both peers claim to command A"
    );
    assert_eq!(
        handshake(hello(PROTOCOL_VERSION, Faction::B, 8, &c)),
        "peer's match seed is 8, ours is 7"
    );
    let mut other = content();
    other.units[1].armor = 3;
    let m = handshake(hello(PROTOCOL_VERSION, Faction::B, 7, &other));
    assert_eq!(
        m,
        format!(
            "peer is running different content — theirs [{}], ours [{}]",
            other.fingerprint().describe(),
            c.fingerprint().describe()
        )
    );
}

#[test]
fn what_cannot_be_sent_stops_the_link() {
    let mut a = peer(Faction::A, 10);
    let mut gate = TickGate { open: true };
    a.link.handed_out(Ok(()), &mut gate);
    assert!(gate.open && a.link.failure().is_none());
    a.link.handed_out(Err("gone".to_string()), &mut gate);
    assert!(!gate.open);
    assert!(matches!(a.link.failure(), Some(LinkFailure::Transport(m)) if m == "gone"));
    // The first reason stands.
    gate.open = true;
    a.link.handed_out(Err("later".to_string()), &mut gate);
    assert!(!gate.open);
    assert!(matches!(a.link.failure(), Some(LinkFailure::Transport(m)) if m == "gone"));
}

#[test]
fn a_silent_peer_stalls_the_link() {
    let mut a = peer(Faction::A, 10);
    let h = hello(PROTOCOL_VERSION, Faction::B, 7, &content());
    pump(&mut a, 5, 7, &vec![], vec![h], 3.0);
    assert!(!a.open && a.link.failure().is_none());
    assert_eq!(f32::from_bits(a.link.waiting_secs().bits), 3.0);
    pump(&mut a, 5, 7, &vec![], vec![], 10.5);
    match a.link.failure() {
        Some(LinkFailure::Stalled { tick, waited_secs }) => {
            assert_eq!((*tick, f32::from_bits(waited_secs.bits)), (5, 10.5))
        }
        other => panic!("{other:?}"),
    }
    // Stopped for good: nothing goes out, and the first reason stands.
    a.link.fail(LinkFailure::Transport("later".to_string()));
    pump(&mut a, 5, 7, &vec![], vec![], 0.0);
    assert!(matches!(a.link.failure(), Some(LinkFailure::Stalled { .. })));
    assert!(!a.open);
}

#[test]
fn a_broken_connection_stops_the_link() {
    let mut a = peer(Faction::A, 10);
    let mut gate = TickGate { open: true };
    a.link.pump(
        0,
        7,
        &content(),
        &a.ids,
        None,
        Err("net: cut".to_string()),
        false,
        num(0.0),
        &mut a.queue,
        &mut gate,
    );
    match a.link.failure() {
        Some(LinkFailure::Transport(m)) => assert_eq!(m, "net: cut"),
        other => panic!("{other:?}"),
    }
    assert!(!gate.open);
    let mut b = peer(Faction::B, 10);
    b.link.pump(
        0,
        7,
        &content(),
        &b.ids,
        None,
        Ok(vec![]),
        true,
        num(0.0),
        &mut b.queue,
        &mut gate,
    );
    match b.link.failure() {
        Some(LinkFailure::Transport(m)) => assert_eq!(m, "the peer closed the connection"),
        other => panic!("{other:?}"),
    }
}

#[test]
fn an_unresolvable_command_stops_the_link() {
    let mut a = peer(Faction::A, 10);
    let frames = vec![
        hello(PROTOCOL_VERSION, Faction::B, 7, &content()),
        Frame::Turn {
            tick: 5,
            commands: vec![WireCommand {
                attribution: Attribution::By(Faction::B),
                order: LoggedOrder::Train {
                    building: 99,
                    unit: 0,
                },
            }],
        },
    ];
    pump(&mut a, 5, 7, &vec![], frames, 0.0);
    match a.link.failure() {
        Some(LinkFailure::Transport(m)) => assert_eq!(
            m,
            "peer sent a command this build cannot resolve: no entity has the id 99"
        ),
        other => panic!("{other:?}"),
    }
    assert!(!a.open);
}
