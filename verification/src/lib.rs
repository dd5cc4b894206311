//! Core of a LAN device-pairing protocol: newline-delimited JSON packet
//! framing, device discovery, a pairing handshake, and the registry that
//! tracks known peers and enforces one connection per device.
use vstd::prelude::*;

pub mod engine;
pub mod discovery;
pub mod dispatcher;
pub mod handshake;
pub mod identity;
pub mod json;
pub mod packet;
pub mod registry;

verus! {

/// Well-known UDP port on which identity packets are broadcast.
pub const DISCOVERY_PORT: u16 = 1716;

} // verus!
