//! Lockstep play: two peers apply the same commands on the same ticks.
//!
//! Commands on the wire name things by the simulation's own ids, the peers
//! exchange one canonical hash per interval, and a handshake refuses a peer
//! whose seed, content or side does not fit. The simulation knows none of this:
//! it has a gate that something outside may hold shut.

pub mod config;
pub mod connection;
pub mod exchange;
pub mod frame;
pub mod laws;
pub mod link;
pub mod ticks;
pub mod wire;

pub use config::NetConfig;
pub use connection::Connection;
pub use link::{LinkFailure, NetLink};
pub use wire::{Frame, WireCommand};

use vstd::prelude::*;

verus! {

/// Wire protocol version. Peers that do not agree on it do not play.
pub const PROTOCOL_VERSION: u32 = 1;

} // verus!
