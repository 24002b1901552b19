//! A received block of a piece.

use vstd::prelude::*;

verus! {

/// A block of piece `index`, starting `begin` bytes into it.
#[derive(Debug)]
pub struct Piece {
    index: u32,
    begin: u32,
    block: Vec<u8>,
}

impl Piece {
    pub fn new(index: u32, begin: u32, block: Vec<u8>) -> (r: Self)
        ensures
            r.index() == index,
            r.begin() == begin,
            r.block() == block@,
    {
        Self { index, begin, block }
    }

    pub closed spec fn index(self) -> u32 {
        self.index
    }

    pub closed spec fn begin(self) -> u32 {
        self.begin
    }

    pub closed spec fn block(self) -> Seq<u8> {
        self.block@
    }

    /// Where the block goes in a file of pieces `length` bytes long.
    pub fn disk_offset(&self, length: u64) -> (r: u64)
        requires
            self.index() as int * length + self.begin() <= u64::MAX,
        ensures
            r == self.index() as int * length + self.begin(),
    {
        self.index as u64 * length + self.begin as u64
    }

    /// The bytes to write.
    pub fn data(&self) -> (r: &[u8])
        ensures
            r@ == self.block(),
    {
        self.block.as_slice()
    }
}

} // verus!
