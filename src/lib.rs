//! Relay transport and session protocol for exchanging game packets with
//! peers through a single UDP rendezvous relay.

pub mod client;
pub mod frame;
pub mod message;
pub mod receiver;
pub mod sender;
pub mod session;
pub mod wire;
