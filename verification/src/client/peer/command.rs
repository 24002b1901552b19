//! What the engine asks a peer worker to do.

use vstd::prelude::*;

verus! {

/// A command for a peer worker.
#[derive(Debug, Clone, Copy, PartialEq, Eq, Structural)]
pub enum PeerCommand {
    /// Ask the peer for `length` bytes of piece `index` from `begin`.
    Request { index: u32, begin: u32, length: u32 },
}

} // verus!
