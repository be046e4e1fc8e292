//! Server core for a small datagram chat relay: a wire codec for the four
//! protocol messages and a session registry that owns the session table,
//! dispatches events, evicts stale peers and fans chat messages out.

pub mod codec;
pub mod protocol;
pub mod registry;
