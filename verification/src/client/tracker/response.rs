//! A tracker's answer to an announce.

use vstd::prelude::*;

verus! {

/// An IPv4 peer address from a compact peer list.
#[derive(Debug, Clone, Copy)]
pub struct PeerAddress {
    pub ip: [u8; 4],
    pub port: u16,
}

/// A successful announce: how long to wait before the next one, and the
/// peers the tracker handed out.
#[derive(Debug)]
pub struct TrackerSuccessResponse {
    /// Seconds to wait between regular announces.
    pub interval: u64,
    /// The peers, in the order the tracker listed them.
    pub peers: Vec<PeerAddress>,
}

impl TrackerSuccessResponse {
    pub fn new(interval: u64, peers: Vec<PeerAddress>) -> (r: Self)
        ensures
            r.interval == interval,
            r.peers@ == peers@,
    {
        Self { interval, peers }
    }
}

} // verus!
