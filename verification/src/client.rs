//! Presentation: what the player is told, and how large things are to the
//! cursor.

use vstd::prelude::*;

use crate::float::F32;
use crate::sim::spatial::Faction;
use crate::sim::victory::MatchOutcome;
use crate::sim::UnitKind;
use crate::text;

verus! {

/// The side the local player commands.
pub const PLAYER_FACTION: Faction = Faction::A;

/// Side length of a resource node, in world units.
pub const RESOURCE_SIZE: u32 = 34;

/// Side length of a building, in world units.
pub const BUILDING_SIZE: u32 = 56;

pub const RESULT_WIN: &'static str = "VICTORY — the enemy HQ is destroyed";

pub const RESULT_LOSS: &'static str = "DEFEAT — your HQ is destroyed";

pub const RESULT_DRAW: &'static str = "DRAW — both HQs fell on the same tick";

/// Why nothing answers any more.
pub const RESULT_INPUT_OFF: &'static str = "The match is over — orders are no longer accepted.";

/// The headline of a decided match.
pub open spec fn headline(winner: Option<Faction>) -> Seq<char> {
    match winner {
        Some(f) => if f == PLAYER_FACTION {
            RESULT_WIN@
        } else {
            RESULT_LOSS@
        },
        None => RESULT_DRAW@,
    }
}

/// `m:ss` of a duration.
pub open spec fn clock_shown(millis: nat) -> Seq<char> {
    text::dec(millis / 1000 / 60) + ":"@ + text::dec2(millis / 1000 % 60)
}

/// What the panel says of a decided match.
pub open spec fn result_shown(outcome: MatchOutcome, millis: nat) -> Seq<char> {
    headline(outcome.winner) + "\nDecided at "@ + clock_shown(millis) + " (tick "@ + text::dec(
        outcome.tick as nat,
    ) + "). "@ + RESULT_INPUT_OFF@
}

/// `m:ss` of match time. `millis` is the tick count at the sim's fixed
/// timestep, rounded to the millisecond.
pub fn match_clock(millis: u64) -> (r: String)
    ensures
        r@ == clock_shown(millis as nat),
{
    let seconds: u64 = millis / 1000;
    let mut s: String = text::decimal(seconds / 60);
    s.append(":");
    text::push_dec2(&mut s, seconds % 60);
    s
}

/// The panel's text for a decided match.
pub fn match_result_text(outcome: MatchOutcome, millis: u64) -> (r: String)
    ensures
        r@ == result_shown(outcome, millis as nat),
{
    let head: &str = match outcome.winner {
        Some(f) => if f == PLAYER_FACTION {
            RESULT_WIN
        } else {
            RESULT_LOSS
        },
        None => RESULT_DRAW,
    };
    let mut s: String = head.to_owned();
    s.append("\nDecided at ");
    s.append(match_clock(millis).as_str());
    s.append(" (tick ");
    text::push_dec(&mut s, outcome.tick as u64);
    s.append("). ");
    s.append(RESULT_INPUT_OFF);
    s
}

/// Side length of a unit of a kind, in world units.
pub open spec fn size_of_kind(kind: UnitKind) -> u32 {
    match kind {
        UnitKind::Worker => 20,
        UnitKind::Soldier => 26,
        UnitKind::Scout => 16,
    }
}

/// On-screen and hit-box side length of a unit.
pub fn unit_size(kind: UnitKind) -> (r: u32)
    ensures
        r == size_of_kind(kind),
{
    match kind {
        UnitKind::Worker => 20,
        UnitKind::Soldier => 26,
        UnitKind::Scout => 16,
    }
}

/// Half the side length of what the cursor can hit, as a number: 10, 13, 8, or
/// 17 for a resource node.
pub open spec fn half_of(kind: Option<UnitKind>) -> F32 {
    F32 {
        bits: match kind {
            Some(UnitKind::Worker) => 0x4120_0000,
            Some(UnitKind::Soldier) => 0x4150_0000,
            Some(UnitKind::Scout) => 0x4100_0000,
            None => 0x4188_0000,
        },
    }
}

/// Half-extent of a selectable's hit box.
pub fn half_extent(kind: Option<UnitKind>) -> (r: F32)
    ensures
        r == half_of(kind),
{
    let bits: u32 = match kind {
        Some(UnitKind::Worker) => 0x4120_0000,
        Some(UnitKind::Soldier) => 0x4150_0000,
        Some(UnitKind::Scout) => 0x4100_0000,
        None => 0x4188_0000,
    };
    F32 { bits }
}

/// A hit box is exactly as large as what is drawn: half its side, in units of
/// 2^-149, twice is the side.
pub proof fn hit_boxes_fit(kind: UnitKind)
    ensures
        2 * half_of(Some(kind)).units() == size_of_kind(kind) as nat
            * vstd::arithmetic::power2::pow2(149),
        2 * half_of(None).units() == RESOURCE_SIZE as nat * vstd::arithmetic::power2::pow2(149),
{
    // 10 = 0xa0_0000 * 2^-20, 13 = 0xd0_0000 * 2^-20, 8 = 0x80_0000 * 2^-20,
    // 17 = 0x88_0000 * 2^-19
    vstd::arithmetic::power2::lemma2_to64();
    vstd::arithmetic::power2::lemma_pow2_adds(129, 20);
    vstd::arithmetic::power2::lemma_pow2_adds(130, 19);
    vstd::arithmetic::power2::lemma_pow2_adds(129, 1);
    let p = vstd::arithmetic::power2::pow2(129);
    let w = vstd::arithmetic::power2::pow2(149);
    assert(w == p * 0x10_0000);
    assert(0x4120_0000int / 0x80_0000 == 130 && 0x4120_0000int % 0x80_0000 == 0x20_0000);
    assert(0x4150_0000int / 0x80_0000 == 130 && 0x4150_0000int % 0x80_0000 == 0x50_0000);
    assert(0x4100_0000int / 0x80_0000 == 130 && 0x4100_0000int % 0x80_0000 == 0);
    assert(0x4188_0000int / 0x80_0000 == 131 && 0x4188_0000int % 0x80_0000 == 0x8_0000);
    assert(2 * (0xa0_0000 * p) == 20 * (p * 0x10_0000)) by (nonlinear_arith);
    assert(2 * (0xd0_0000 * p) == 26 * (p * 0x10_0000)) by (nonlinear_arith);
    assert(2 * (0x80_0000 * p) == 16 * (p * 0x10_0000)) by (nonlinear_arith);
    assert(2 * (0x88_0000 * (p * 2)) == 34 * (p * 0x10_0000)) by (nonlinear_arith);
}

/// The panel tells the player who won: the player, the enemy, or nobody.
pub proof fn the_headline_tells_who_won(f: Faction)
    ensures
        headline(Some(PLAYER_FACTION)) == RESULT_WIN@,
        f != PLAYER_FACTION ==> headline(Some(f)) == RESULT_LOSS@,
        headline(None) == RESULT_DRAW@,
{
}

/// A clock shows whole minutes and the seconds left over, in two places.
pub proof fn a_clock_shows_minutes_and_seconds(minutes: nat, seconds: nat, millis: nat)
    requires
        seconds < 60,
        millis < 1000,
    ensures
        clock_shown((minutes * 60 + seconds) * 1000 + millis) == text::dec(minutes) + ":"@
            + text::dec2(seconds),
{
    let t = (minutes * 60 + seconds) * 1000 + millis;
    assert(t / 1000 == minutes * 60 + seconds);
    assert(t / 1000 / 60 == minutes && t / 1000 % 60 == seconds);
}

} // verus!
