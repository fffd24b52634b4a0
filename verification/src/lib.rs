//! Verified core of a light-actuation scheduler: a timestamp-keyed command
//! queue with a fixed-interval spacing policy, a status state machine driven
//! by HTTP outcomes, a reactively refreshed access-credential cache, and an
//! exact byte codec for state persistence across host restarts.
use vstd::prelude::*;

pub mod commands;
pub mod executor;
pub mod laws;
pub mod persist;
pub mod queue;
pub mod outcalls;
pub mod rdf;
pub mod schedule;
pub mod state;
pub mod utils;
pub mod uuid;
pub mod wot;

verus! {

/// The fixed spacing between two consecutively admitted commands, in
/// nanoseconds (15 seconds).
pub const COMMANDS_INTERVAL: u64 = 15_000_000_000;

} // verus!
