//! Tests of the balance batch: records, seeds and tallies.

use onus::batch::{mirrors, seed_at, MatchRecord, MatchResult, SplitTally, Tally};
use onus::float::F32;
use onus::headless::{Orientation, SIM_HZ};
use onus::sim::spatial::Faction;

fn rec(result: MatchResult, ticks: u32) -> MatchRecord {
    oriented(result, ticks, Orientation::Normal)
}

fn oriented(result: MatchResult, ticks: u32, orientation: Orientation) -> MatchRecord {
    MatchRecord {
        strategies: ["a".to_string(), "b".to_string()],
        seed: 0,
        result,
        orientation,
        ticks,
    }
}

/// A win from the left-hand base counts as a left win in either orientation.
#[test]
fn spawn_wins_are_positional_and_slot_wins_are_not() {
    let t = Tally::of(&[
        oriented(MatchResult::Decided(Faction::A), 10, Orientation::Normal),
        oriented(MatchResult::Decided(Faction::B), 10, Orientation::Swapped),
    ]);
    assert_eq!(t.wins, [1, 1], "one win per slot");
    assert_eq!(t.spawn_wins, [2, 0], "both won from the left base");
    assert_eq!(t.left_spawn_rate().map(|r| f32::from_bits(r.bits)), Some(1.0));
    assert_eq!(t.slot_a_rate().map(|r| f32::from_bits(r.bits)), Some(0.5));
    assert_eq!(t.by_orientation[0].wins, [1, 0]);
    assert_eq!(t.by_orientation[1].wins, [0, 1]);
    assert_eq!(t.by_orientation[0].total, 1);
    assert_eq!(t.by_orientation[1].total, 1);

    // Undecided rows are counted, but never as a positional win.
    let u = Tally::of(&[
        oriented(MatchResult::Timeout, 5, Orientation::Swapped),
        oriented(MatchResult::MutualLoss, 5, Orientation::Swapped),
    ]);
    assert_eq!(u.spawn_wins, [0, 0]);
    assert_eq!(u.left_spawn_rate(), None);
    assert_eq!(u.slot_a_rate(), None);
    assert_eq!(u.by_orientation[1].timeouts, 1);
    assert_eq!(u.by_orientation[1].mutual_losses, 1);
    assert_eq!(u.by_orientation[0].total, 0);
}

#[test]
fn a_record_reports_the_spawn_its_winner_held() {
    let normal = oriented(MatchResult::Decided(Faction::A), 1, Orientation::Normal);
    assert_eq!(normal.winner_at_left(), Some(true));
    let swapped = oriented(MatchResult::Decided(Faction::A), 1, Orientation::Swapped);
    assert_eq!(swapped.winner_at_left(), Some(false));
    assert_eq!(
        oriented(MatchResult::Timeout, 1, Orientation::Normal).winner_at_left(),
        None
    );
}

#[test]
fn seed_at_is_pure_and_spreads() {
    assert_eq!(seed_at(0, 0), seed_at(0, 0));
    let seeds: Vec<u64> = (0..8).map(|k| seed_at(0, k)).collect();
    let mut sorted = seeds.clone();
    sorted.sort_unstable();
    sorted.dedup();
    assert_eq!(sorted.len(), 8, "eight distinct seeds");
    // A different base is a different batch.
    assert!((0..8).all(|k| seed_at(0, k) != seed_at(1, k)));
}

fn fraction(q: f32) -> F32 {
    F32 { bits: q.to_bits() }
}

#[test]
fn a_tally_keeps_timeouts_apart_from_draws() {
    let t = Tally::of(&[
        rec(MatchResult::Decided(Faction::A), 100),
        rec(MatchResult::Decided(Faction::B), 200),
        rec(MatchResult::MutualLoss, 300),
        rec(MatchResult::Timeout, 400),
    ]);
    assert_eq!(t.total, 4);
    assert_eq!(t.decided, 2);
    assert_eq!(t.wins, [1, 1]);
    assert_eq!(t.mutual_losses, 1);
    assert_eq!(t.timeouts, 1);
    assert_eq!(f32::from_bits(t.timeout_rate().bits), 0.25);
    // Nearest rank over four lengths: the median is the 2nd of them.
    assert_eq!(t.median_length(), Some(200));
    assert_eq!(t.length_quantile(fraction(0.0)), Some(100));
    assert_eq!(t.length_quantile(fraction(0.25)), Some(100));
    assert_eq!(t.length_quantile(fraction(0.75)), Some(300));
    assert_eq!(t.length_quantile(fraction(1.0)), Some(400));
}

#[test]
fn an_empty_tally_has_no_length_and_no_timeouts() {
    let t = Tally::of(&[]);
    assert_eq!(t.median_length(), None);
    assert_eq!(f32::from_bits(t.timeout_rate().bits), 0.0);
}

#[test]
fn seconds_is_ticks_at_the_sim_rate() {
    assert_eq!(f32::from_bits(rec(MatchResult::Timeout, SIM_HZ).seconds().bits), 1.0);
    let odd = rec(MatchResult::Timeout, 12_345);
    assert_eq!(f32::from_bits(odd.seconds().bits), 12_345.0f32 / 60.0);
}

#[test]
fn a_quantile_is_a_nearest_rank() {
    let t = Tally::of(&(1..=10).map(|k| rec(MatchResult::Timeout, k)).collect::<Vec<_>>());
    let q = |x: f32| t.length_quantile(fraction(x));
    // 0.1 as it is held is a little more than a tenth, so the second of ten.
    assert_eq!(q(0.1), Some(2));
    assert_eq!(q(0.0999), Some(1));
    assert_eq!(q(0.25), Some(3));
    assert_eq!(q(0.5), Some(5));
    assert_eq!(q(1.0e-40), Some(1));
    assert_eq!(q(-3.0), Some(1));
    assert_eq!(q(7.0), Some(10));
    assert_eq!(q(f32::NAN), Some(1));
    assert_eq!(t.median_length(), Some(5));
}

/// Past 2^24 a count is rounded before it is divided.
#[test]
fn rates_divide_rounded_counts() {
    let mut t = Tally::of(&[]);
    t.wins = [16_777_217, 2];
    t.spawn_wins = [16_777_217, 2];
    t.total = 16_777_219;
    t.timeouts = 16_777_217;
    let expected = 16_777_217usize as f32 / 16_777_219usize as f32;
    assert_eq!(expected, 1.0 - 2.0f32.powi(-22));
    assert_eq!(t.slot_a_rate().map(|r| f32::from_bits(r.bits)), Some(expected));
    assert_eq!(t.left_spawn_rate().map(|r| f32::from_bits(r.bits)), Some(expected));
    assert_eq!(f32::from_bits(t.timeout_rate().bits), expected);
    // More timeouts than matches are divided all the same.
    t.total = 3;
    t.timeouts = 7;
    assert_eq!(f32::from_bits(t.timeout_rate().bits), 7.0f32 / 3.0);
}

/// A match counted in moves its total and what it ended in, and nothing else.
#[test]
fn a_split_tally_grows_by_what_a_match_ended_in() {
    let start = SplitTally { total: 9, decided: 5, mutual_losses: 1, timeouts: 3, wins: [4, 1] };
    let counts = |s: &SplitTally| {
        (s.total, s.decided, s.mutual_losses, s.timeouts, s.wins)
    };
    let added = |result| {
        let mut s = start;
        s.add(&oriented(result, 77, Orientation::Swapped));
        let mut same = start;
        same.add(&rec(result, 3));
        assert_eq!(counts(&s), counts(&same));
        counts(&s)
    };
    assert_eq!(added(MatchResult::Decided(Faction::A)), (10, 6, 1, 3, [5, 1]));
    assert_eq!(added(MatchResult::Decided(Faction::B)), (10, 6, 1, 3, [4, 2]));
    assert_eq!(added(MatchResult::MutualLoss), (10, 5, 2, 3, [4, 1]));
    assert_eq!(added(MatchResult::Timeout), (10, 5, 1, 4, [4, 1]));
}

/// Mirrors are kept in order and whole.
#[test]
fn mirrors_are_one_script_on_both_sides() {
    let named = |a: &str, b: &str, ticks: u32| {
        let mut r = rec(MatchResult::Decided(Faction::B), ticks);
        r.strategies = [a.to_string(), b.to_string()];
        r
    };
    let records = [named("a", "a", 1), named("a", "b", 2), named("b", "b", 3), named("b", "a", 4)];
    let kept: Vec<(String, u32)> = mirrors(&records)
        .into_iter()
        .map(|r| {
            assert_eq!(r.strategies[0], r.strategies[1]);
            assert_eq!(r.result, MatchResult::Decided(Faction::B));
            (r.strategies[0].clone(), r.ticks)
        })
        .collect();
    assert_eq!(kept, vec![("a".to_string(), 1), ("b".to_string(), 3)]);
    assert!(mirrors(&[]).is_empty());
}
