//! BitTorrent metadata: hex infohashes, `.torrent` files, magnet links and
//! the bitfield peers use to announce which pieces they hold.

pub mod bitfield;
pub mod hex;
pub mod magnet;
pub mod metainfo;
pub mod util;
