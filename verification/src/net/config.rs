//! The tunables of a lockstep link.

use vstd::prelude::*;

use crate::float::F32;

verus! {

/// Lockstep tunables.
#[derive(Clone, Copy, PartialEq, Eq, Structural, Debug)]
pub struct NetConfig {
    /// Ticks between issuing a command and applying it, on both peers.
    pub turn_delay_ticks: u32,
    /// Ticks between two hash comparisons.
    pub hash_interval_ticks: u32,
    /// Seconds to wait for a missing turn before the link counts as stalled.
    pub stall_timeout_secs: F32,
}

impl Default for NetConfig {
    fn default() -> (r: Self)
        ensures
            r.turn_delay_ticks == 6,
            r.hash_interval_ticks == 30,
            r.stall_timeout_secs.bits == 0x4120_0000,
    {
        NetConfig {
            turn_delay_ticks: 6,
            hash_interval_ticks: 30,
            // 10.0
            stall_timeout_secs: F32 { bits: 0x4120_0000 },
        }
    }
}

impl NetConfig {
    /// The file's name inside a data directory.
    pub const FILE: &'static str = "net.ron";

    /// What is wrong with a configuration.
    pub open spec fn problem(&self) -> Option<Seq<char>> {
        if self.turn_delay_ticks == 0 {
            Some("net config: turn_delay_ticks must be at least 1"@)
        } else if self.hash_interval_ticks == 0 {
            Some("net config: hash_interval_ticks must be at least 1"@)
        } else if !self.stall_timeout_secs.finite_positive() {
            Some("net config: stall_timeout_secs must be a positive number"@)
        } else {
            None
        }
    }

    /// A turn delay of zero would apply a command on the tick it was issued,
    /// which no peer can do for the other's commands.
    pub fn validate(&self) -> (r: Result<(), String>)
        ensures
            match r {
                Ok(_) => self.problem() is None,
                Err(m) => self.problem() == Some(m@),
            },
    {
        if self.turn_delay_ticks == 0 {
            return Err("net config: turn_delay_ticks must be at least 1".to_owned());
        }
        if self.hash_interval_ticks == 0 {
            return Err("net config: hash_interval_ticks must be at least 1".to_owned());
        }
        if !self.stall_timeout_secs.is_finite_positive() {
            return Err("net config: stall_timeout_secs must be a positive number".to_owned());
        }
        Ok(())
    }
}

/// A configuration is accepted exactly if commands are delayed, hashes are
/// exchanged at some interval, and the wait has a limit.
pub proof fn a_configuration_is_sound(c: NetConfig)
    ensures
        c.problem() is None <==> c.turn_delay_ticks > 0 && c.hash_interval_ticks > 0
            && c.stall_timeout_secs.finite() && F32::zero().less(c.stall_timeout_secs),
{
}

} // verus!
