//! What the engine knows about one connected peer.

use std::collections::{HashSet, VecDeque};

use vstd::prelude::*;

use super::bitfield::Bitfield;

verus! {

/// A peer's state as the engine tracks it.
#[derive(Debug)]
pub struct PeerState {
    /// The pieces the peer has.
    pub bitfield: Bitfield,
    /// Whether the peer is choking us.
    pub am_choked: bool,
    /// The piece being fetched from this peer.
    pub current_piece_idx: Option<u32>,
    /// The offsets of the blocks requested and not yet received.
    pub in_flight: HashSet<u32>,
    /// The blocks of the current piece not yet requested, as offset and
    /// length.
    pub remaining_blocks: VecDeque<(u32, u32)>,
}

impl PeerState {
    /// A freshly connected peer: no pieces known, choking us, nothing
    /// requested.
    pub fn new() -> (r: Self)
        ensures
            r.bitfield.bits() == Seq::<bool>::empty(),
            r.am_choked,
            r.current_piece_idx is None,
            r.in_flight@ == Set::<u32>::empty(),
            r.remaining_blocks@ == Seq::<(u32, u32)>::empty(),
    {
        Self {
            bitfield: Bitfield::default(),
            am_choked: true,
            current_piece_idx: None,
            in_flight: HashSet::new(),
            remaining_blocks: VecDeque::new(),
        }
    }
}

} // verus!
