//! Tests of what surrounds the sim: the command line, file names, panel texts.

use onus::balance::{mmss, parse, Request, USAGE};
use onus::client::{match_clock, match_result_text, unit_size};
use onus::float::F32;
use onus::headless::DEFAULT_TICK_CAP;
use onus::netpeer::plays_on;
use onus::replay_io::{stem, write_failure, NameWalk, ReplayConfig, ReplayWriter, WriteOutcome};
use onus::sim::content::ContentFingerprint;
use onus::sim::orders::{Attribution, CommandTick, Order};
use onus::sim::replay::{CommandFate, CommandLog};
use onus::sim::spatial::Faction;
use onus::sim::victory::MatchOutcome;
use onus::sim::{Entity, UnitKind};
use onus::ui::RateReport;

fn args(all: &[&str]) -> Vec<String> {
    all.iter().map(|s| s.to_string()).collect()
}

fn run(all: &[&str]) -> (u32, u64, u32, Option<Vec<String>>) {
    match parse(&args(all)) {
        Ok(Request::Run(s)) => (s.seeds, s.seed_base, s.tick_cap, s.only),
        other => panic!("{other:?}"),
    }
}

fn refused(all: &[&str]) -> String {
    match parse(&args(all)) {
        Err(m) => m,
        other => panic!("{other:?}"),
    }
}

#[test]
fn flags_fill_the_settings() {
    assert_eq!(run(&[]), (1, 0, DEFAULT_TICK_CAP, None));
    assert_eq!(
        run(&["--seeds", "4", "--seed-base", "18446744073709551615", "--only", "a,b"]),
        (4, u64::MAX, DEFAULT_TICK_CAP, Some(args(&["a", "b"])))
    );
    assert_eq!(run(&["--minutes", "2"]).2, 7200);
    assert!(matches!(parse(&args(&["--help"])), Ok(Request::Help)));
    assert!(matches!(parse(&args(&["-h"])), Ok(Request::Help)));
}

#[test]
fn the_last_budget_given_wins() {
    assert_eq!(run(&["--minutes", "2", "--tick-cap", "9"]).2, 9);
    assert_eq!(run(&["--tick-cap", "9", "--minutes", "2"]).2, 7200);
}

#[test]
fn bad_flags_are_refused() {
    assert_eq!(refused(&["--seeds"]), "--seeds needs a value");
    assert_eq!(refused(&["--seeds", "x"]), "--seeds: invalid digit found in string");
    assert_eq!(
        refused(&["--seeds", ""]),
        "--seeds: cannot parse integer from empty string"
    );
    assert_eq!(
        refused(&["--seed-base", "18446744073709551616"]),
        "--seed-base: number too large to fit in target type"
    );
    assert_eq!(
        refused(&["--tick-cap", "4294967296"]),
        "--tick-cap: 4294967296 is out of range (max 4294967295)"
    );
    assert_eq!(
        refused(&["--minutes", "1193047"]),
        "--minutes: 1193047 is out of range (max 1193046)"
    );
    assert_eq!(refused(&["--seeds", "0"]), "--seeds must be at least 1");
    assert_eq!(refused(&["--minutes", "0"]), "--tick-cap must be at least 1");
    assert_eq!(refused(&["--wat"]), format!("unknown flag `--wat`\n{USAGE}"));
    assert_eq!(run(&["--seeds", "+7"]).0, 7, "a sign is a number's");
}

#[test]
fn times_are_shown_in_minutes() {
    assert_eq!(mmss(0), "0:00");
    assert_eq!(mmss(60 * 61), "1:01");
    assert_eq!(match_clock(754_999), "12:34");
    assert_eq!(
        match_result_text(
            MatchOutcome {
                winner: Some(Faction::B),
                tick: 77
            },
            65_000
        ),
        "DEFEAT — your HQ is destroyed\nDecided at 1:05 (tick 77). The match is over — orders are no longer accepted."
    );
    assert!(match_result_text(
        MatchOutcome {
            winner: None,
            tick: 1
        },
        0
    )
    .starts_with("DRAW"));
    assert!(unit_size(UnitKind::Worker) > 0);
}

#[test]
fn rates_are_reported_once_a_second() {
    let mut r = RateReport::default();
    r.ticked();
    r.ticked();
    let secs = |x: f32| F32 { bits: x.to_bits() };
    assert_eq!(r.report(secs(0.9)), None);
    assert_eq!(r.report(secs(1.0)), Some((2, 2)));
    assert_eq!(r.report(secs(0.5)), None);
    assert_eq!((r.sim_ticks, r.frames), (0, 1));
}

// ---- the replay file --------------------------------------------------------

fn stamped() -> CommandLog {
    let mut log = CommandLog::new(3);
    log.log.content = ContentFingerprint::from_parts(9, "small".to_string());
    log
}

fn on() -> ReplayConfig {
    ReplayConfig {
        enabled: true,
        ..ReplayConfig::default()
    }
}

#[test]
fn a_writer_acts_at_most_once() {
    let mut w = ReplayWriter::new(on());
    assert!(w.ask(&stamped()));
    w.finish(WriteOutcome::Written("replays/a.ron".to_string()));
    assert_eq!(w.written(), Some("replays/a.ron"));
    assert!(!w.ask(&stamped()));
    w.finish(WriteOutcome::Failed("late".to_string()));
    assert_eq!(w.error(), None);
    assert_eq!(w.asks(), 2);
}

#[test]
fn a_writer_refuses_what_it_cannot_write() {
    let mut w = ReplayWriter::with_fixed_clock(on(), 42);
    assert_eq!(w.reading(7), 42);
    assert!(!w.ask(&CommandLog::new(1)), "never stamped");
    assert!(matches!(w.outcome(), Some(WriteOutcome::NothingToWrite)));
    let mut odd = stamped();
    odd.log.version = 8;
    let mut w = ReplayWriter::new(on());
    assert_eq!(w.reading(7), 7);
    assert!(!w.ask(&odd));
    assert_eq!(
        w.error(),
        Some("log: refusing to write format version 8 (this build writes 1)")
    );
    // A log that this build could not read back gets no file.
    let mut unread = stamped();
    unread.record(
        9,
        CommandTick::Asap,
        CommandFate::Taken,
        Attribution::SelfSigned,
        &Order::Train {
            building: Entity { bits: 0 },
            unit: 0,
        },
    );
    let mut w = ReplayWriter::new(on());
    assert!(!w.ask(&unread));
    assert_eq!(w.error(), Some("log: invalid entity bits 0"));
    // Writing is off until it is asked for.
    let mut off = ReplayWriter::new(ReplayConfig::default());
    assert!(!off.ask(&stamped()));
    assert!(off.outcome().is_none());
}

#[test]
fn names_are_tried_in_turn_and_never_overwritten() {
    let s = stem("onus", 100, 7);
    assert_eq!(s, "onus-100-seed7");
    let mut walk = NameWalk::new(s, 2);
    let mut names = Vec::new();
    while let Some(name) = walk.candidate() {
        walk.taken(format!("replays/{name}"));
        names.push(name);
    }
    assert_eq!(
        names,
        vec!["onus-100-seed7.ron", "onus-100-seed7-1.ron", "onus-100-seed7-2.ron"]
    );
    assert_eq!(
        walk.exhausted(),
        "replay log not written: 3 names from `onus-100-seed7.ron` to `replays/onus-100-seed7-2.ron` are all taken; refusing to overwrite an existing log"
    );
    assert_eq!(
        write_failure("a.ron", "full", None),
        "replay log not written: a.ron: full"
    );
    assert!(write_failure("a.ron", "full", Some("busy")).contains("could not be removed: busy"));
}

#[test]
fn a_peer_has_a_budget_of_frames() {
    assert!(plays_on(0, 300, 0));
    assert!(plays_on(299, 300, 5_999));
    assert!(!plays_on(299, 300, 6_000), "the budget is spent");
    assert!(!plays_on(300, 300, 10), "the match is played");
    assert!(plays_on(0, u32::MAX, 85_899_345_899));
    assert!(!plays_on(0, u32::MAX, 85_899_345_900));
}
