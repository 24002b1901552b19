//! The pieces of a BitTorrent client's own logic: its bencode value and
//! codec, torrent metadata, the peer wire protocol, piece bookkeeping,
//! tracker responses and the engine's decisions.

pub mod disk;
pub mod engine;
pub mod metainfo;
pub mod peer;
pub mod piece;
pub mod protocol;
pub mod tracker;
pub mod util;
pub mod wire;
