//! Tests of the random stream, layouts, nearest enemies and path finding.

use onus::float::{Point, F32};
use onus::sim::near::{nearest_of, Candidate};
use onus::sim::pathfind::{astar, FlowField, TileGrid};
use onus::sim::spatial::{
    brute_force_nearest_enemy, brute_force_nearest_enemy_counted, faction_slot, random_layout,
    Faction, SplitMix64, Unit,
};

fn num(x: f32) -> F32 {
    F32 { bits: x.to_bits() }
}

fn value(x: F32) -> f32 {
    f32::from_bits(x.bits)
}

fn origin() -> Point {
    Point {
        x: num(0.0),
        y: num(0.0),
    }
}

/// A uniform draw from `[lo, hi)`.
fn range(rng: &mut SplitMix64, lo: f32, hi: f32) -> f32 {
    lo + (hi - lo) * value(rng.next_f32())
}

fn unit(x: f32, y: f32, faction: Faction) -> Unit {
    Unit {
        pos: Point {
            x: num(x),
            y: num(y),
        },
        faction,
    }
}

fn squared(units: &[Unit], i: usize) -> Vec<F32> {
    units
        .iter()
        .map(|u| {
            let dx = value(u.pos.x) - value(units[i].pos.x);
            let dy = value(u.pos.y) - value(units[i].pos.y);
            num(dx * dx + dy * dy)
        })
        .collect()
}

fn brute(units: &Vec<Unit>, i: usize) -> Option<usize> {
    brute_force_nearest_enemy(units, &squared(units, i), i)
}

#[test]
fn rng_same_seed_same_stream() {
    let mut a = SplitMix64::new(7);
    let mut b = SplitMix64::new(7);
    let mut c = SplitMix64::new(8);
    assert_eq!(a.next_u64(), b.next_u64(), "same seed ⇒ same value");
    assert_ne!(SplitMix64::new(8).next_u64(), a.next_u64());
    // range stays within bounds.
    for _ in 0..1000 {
        let v = range(&mut c, -3.0, 5.0);
        assert!((-3.0..5.0).contains(&v));
    }
}

#[test]
fn the_stream_starts_with_known_values() {
    let mut r = SplitMix64::new(0);
    assert_eq!(r.next_u64(), 0xE220_A839_7B1D_CDAF);
    assert_eq!(r.next_u64(), 0x6E78_9E6A_A1B9_65F4);
    assert_eq!(r.next_u64(), 0x06C4_5D18_8009_454F);
}

#[test]
fn a_fraction_is_the_top_of_a_draw() {
    let mut a = SplitMix64::new(11);
    let mut b = a;
    for _ in 0..200 {
        let f = value(a.next_f32());
        let top = b.next_u64() >> 40;
        assert_eq!(f, top as f32 / (1u32 << 24) as f32);
        assert!((0.0..1.0).contains(&f));
    }
}

#[test]
fn layout_has_requested_count_and_both_factions() {
    let place = |x: F32| -10.0 + 20.0 * value(x);
    let layout = random_layout(2000, 1);
    assert_eq!(layout.len(), 2000);
    assert!(layout.iter().any(|u| u.faction == Faction::A));
    assert!(layout.iter().any(|u| u.faction == Faction::B));
    assert!(layout.iter().all(|u| place(u.pos.x) >= -10.0
        && place(u.pos.x) < 10.0
        && place(u.pos.y) >= -10.0
        && place(u.pos.y) < 10.0));
}

#[test]
fn brute_finds_nearest_opposite_faction() {
    let units = vec![
        unit(0.0, 0.0, Faction::A),  // 0
        unit(10.0, 0.0, Faction::B), // 1 (far enemy)
        unit(5.0, 0.0, Faction::B),  // 2 (near enemy)
    ];
    assert_eq!(brute(&units, 0), Some(2), "nearest enemy, not just any");
    assert_eq!(brute(&units, 2), Some(0), "B's nearest enemy is the A");
    assert_eq!(
        brute_force_nearest_enemy_counted(&units, &squared(&units, 0), 0),
        (Some(2), 2)
    );
}

#[test]
fn brute_single_unit_has_no_enemy() {
    let units = vec![unit(3.0, 4.0, Faction::A)];
    assert_eq!(brute(&units, 0), None);
}

#[test]
fn brute_all_one_faction_has_no_enemy() {
    let units = vec![
        unit(0.0, 0.0, Faction::A),
        unit(1.0, 1.0, Faction::A),
        unit(9.0, 9.0, Faction::A),
    ];
    for i in 0..units.len() {
        assert_eq!(brute(&units, i), None, "no enemy anywhere");
    }
}

#[test]
fn brute_ties_break_to_smallest_index() {
    // Two enemies at the exact same distance (5) from unit 0.
    let units = vec![
        unit(0.0, 0.0, Faction::A), // 0
        unit(0.0, 5.0, Faction::B), // 1  distance 5
        unit(5.0, 0.0, Faction::B), // 2  distance 5
    ];
    assert_eq!(
        brute(&units, 0),
        Some(1),
        "equal distance ⇒ smallest index wins, deterministically"
    );
}

#[test]
fn slots_follow_the_factions() {
    assert_eq!((faction_slot(Faction::A), faction_slot(Faction::B)), (0, 1));
}

#[test]
fn only_open_candidates_are_chosen() {
    let c = |squared: f32, key: u64, open: bool| Candidate {
        squared: num(squared),
        key,
        open,
    };
    assert_eq!(nearest_of(&vec![c(1.0, 0, false), c(4.0, 9, true), c(4.0, 3, true)]), Some(2));
    assert_eq!(nearest_of(&vec![c(1.0, 0, false)]), None);
}

// ---- path finding -----------------------------------------------------------

fn open_grid() -> TileGrid {
    TileGrid::new(5, 5, num(1.0), origin())
}

#[test]
fn index_and_walkability_round_trip() {
    let mut g = open_grid();
    assert!(g.is_walkable_xy(2, 3));
    g.set_blocked(2, 3, true);
    assert!(!g.is_walkable_xy(2, 3));
    let i = g.idx(2, 3);
    assert_eq!(g.xy(i), (2, 3));
    assert!(!g.is_walkable(i));
}

#[test]
fn neighbors_are_edge_adjacent_and_skip_blocked_and_edges() {
    let mut g = open_grid();
    g.set_blocked(1, 0, true); // block one of corner (0,0)'s neighbours
    let mut out = Vec::new();
    g.walkable_neighbors(g.idx(0, 0), &mut out);
    // Corner (0,0): only (1,0) and (0,1) are in bounds; (1,0) is blocked.
    assert_eq!(out, vec![g.idx(0, 1)]);
}

#[test]
fn a_path_is_shortest_and_the_field_agrees() {
    let g = TileGrid::from_rows(&["..#..", "..#..", ".....", "..#..", "..#.."], num(1.0), origin());
    let path = astar(&g, g.idx(0, 0), g.idx(4, 0)).unwrap();
    assert_eq!(path.len(), 9);
    assert_eq!((path[0], path[8]), (g.idx(0, 0), g.idx(4, 0)));
    let field = FlowField::compute(&g, g.idx(4, 0));
    assert_eq!(field.distance(g.idx(0, 0)), Some(8));
    assert_eq!(field.next(g.idx(4, 0)), None);
    assert_eq!(field.distance(g.idx(2, 0)), None);
    let mut at = g.idx(0, 0);
    for k in (0..8).rev() {
        at = field.next(at).unwrap();
        assert_eq!(field.distance(at), Some(k));
    }
    assert_eq!(at, g.idx(4, 0));
}

#[test]
fn a_walled_goal_has_no_path() {
    let g = TileGrid::from_rows(&[".#.", ".#.", ".#."], num(1.0), origin());
    assert!(astar(&g, 0, 2).is_none());
    assert!(!FlowField::compute(&g, 2).is_reachable(0));
    assert_eq!(astar(&g, 0, 0), Some(vec![0]));
}

#[test]
fn a_random_grid_is_a_function_of_its_seed() {
    let a = TileGrid::random(20, 10, num(1.0), origin(), num(0.25), 5);
    let b = TileGrid::random(20, 10, num(1.0), origin(), num(0.25), 5);
    let c = TileGrid::random(20, 10, num(1.0), origin(), num(0.25), 6);
    assert_eq!(a.blocked, b.blocked);
    assert_ne!(a.blocked, c.blocked);
    assert!(a.blocked.iter().any(|x| *x) && a.blocked.iter().any(|x| !*x));
    assert_eq!(a.manhattan(a.idx(0, 0), a.idx(3, 4)), 7);
}
