//! Talking to peers: wire messages, the handshake and the blocks they send.

pub mod bitfield;
pub mod command;
pub mod handshake;
pub mod message;
pub mod peer_message;
pub mod piece;
pub mod session;
pub mod state;
pub mod swarm;
pub mod worker;
