//! Onus: the verified core of a deterministic real-time strategy game.
//!
//! Every rule of the simulation, the balance harness and the lockstep link is a
//! function from plain values to plain values. Positions, ranges and rates are
//! carried as the bits of IEEE-754 numbers; what needs floating-point
//! arithmetic (a distance, a heading) is computed by the driver and handed in.
#![allow(unused_imports)]

pub mod balance;
pub mod batch;
pub mod big;
pub mod client;
pub mod counting;
pub mod float;
pub mod headless;
pub mod input;
pub mod metrics;
pub mod net;
pub mod netpeer;
pub mod pentagon;
pub mod ratio;
pub mod replay_io;
pub mod setup;
pub mod sim;
pub mod text;
pub mod ui;
