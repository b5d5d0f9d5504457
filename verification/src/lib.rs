//! A multi-room chat relay, verified: a serialized coordinator owns all
//! membership state (which connections exist, which rooms they belong to,
//! a visitor counter), per-connection session logic multiplexes protocol
//! frames, broadcast delivery and heartbeat liveness, and chat commands are
//! parsed from inbound text. The transport, the scheduler and the on-disk
//! message store are unverified collaborators around this library.

pub mod coordinator;
pub mod session;
pub mod store;
pub mod text;

use vstd::prelude::*;

verus! {

/// Number of milliseconds between two heartbeat ticks of a session loop.
pub const HEARTBEAT_INTERVAL_MS: u64 = 5000;

/// A connection that has shown no liveness signal for longer than this many
/// milliseconds is disconnected at the next heartbeat tick.
pub const CLIENT_TIMEOUT_MS: u64 = 10000;

} // verus!
