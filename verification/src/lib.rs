//! A BitTorrent library: bencode, torrent metadata, magnet links and the
//! pieces of a client's bookkeeping, with their behaviour stated and proved.

pub mod bencode;
pub mod bittorrent;
pub mod client;
pub mod hashing;
pub mod text;
