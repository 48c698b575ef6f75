//! A verified core for a gateway-connected tunnelling agent.
//!
//! The crate models the agent's data (addresses, allow-lists, protocol
//! messages), its wire codec (length-delimited CBOR frames), the sealed-box
//! challenge/response authentication, and the control-plane state machine
//! (heartbeats, reconnect backoff, capacity accounting).  Network and timer
//! plumbing live outside; everything that decides or computes lives here,
//! with contracts.

pub mod address;
pub mod base64;
pub mod cbor;
pub mod codec;
pub mod config;
pub mod crypto;
pub mod dns;
pub mod ip;
pub mod machine;
pub mod protocol;
pub mod sealed;
pub mod time;
pub mod util;

use vstd::prelude::*;

verus! {

/// Version of this crate, as sent to the gateway in `Hello`.
pub fn version() -> (v: protocol::Version)
    ensures
        v == (protocol::Version { major: 1u64, minor: 0u64, patch: 0u64 }),
{
    protocol::Version { major: 1, minor: 0, patch: 0 }
}

} // verus!
