//! A piece being fetched: which of its blocks arrived and which were asked
//! for.

use vstd::prelude::*;

verus! {

/// The size of a block requested from a peer.
const BLOCK_SIZE: u16 = 16384;

/// How many blocks a piece of `piece_length` bytes has: its length divided
/// by the block size, rounded up.
pub open spec fn blocks_in(piece_length: u64) -> nat {
    ((piece_length + 16383) / 16384) as nat
}

/// The request flags once every request whose block has not arrived is
/// withdrawn.
pub open spec fn cancelled(blocks: Seq<Option<Seq<u8>>>, requested: Seq<bool>) -> Seq<bool> {
    Seq::new(requested.len(), |i: int| requested[i] && blocks[i] is Some)
}

/// The blocks of a piece being fetched.
#[derive(Debug)]
pub struct InProgress {
    blocks: Vec<Option<Vec<u8>>>,
    requested: Vec<bool>,
    piece_length: u64,
    block_count: usize,
}

impl InProgress {
    /// Each block's bytes, once it has arrived.
    pub closed spec fn blocks(self) -> Seq<Option<Seq<u8>>> {
        self.blocks@.map_values(|b: Option<Vec<u8>>| match b {
            Some(v) => Some(v@),
            None => None,
        })
    }

    /// Which blocks have been asked for.
    pub closed spec fn requested(self) -> Seq<bool> {
        self.requested@
    }

    /// The length of the piece.
    pub closed spec fn piece_length(self) -> u64 {
        self.piece_length
    }

    /// One arrival slot and one request flag per block.
    pub closed spec fn wf(self) -> bool {
        &&& self.blocks@.len() == self.block_count
        &&& self.requested@.len() == self.block_count
        &&& self.block_count == blocks_in(self.piece_length)
    }

    /// A piece of `piece_length` bytes with no block arrived or asked for.
    pub fn new(piece_length: u64) -> (r: Self)
        requires
            blocks_in(piece_length) <= usize::MAX,
        ensures
            r.wf(),
            r.piece_length() == piece_length,
            r.blocks() == Seq::new(blocks_in(piece_length), |i: int| None::<Seq<u8>>),
            r.requested() == Seq::new(blocks_in(piece_length), |i: int| false),
    {
        let count: u64 = piece_length / (BLOCK_SIZE as u64) + if piece_length % (BLOCK_SIZE as u64) == 0 {
            0
        } else {
            1
        };
        assert(count == blocks_in(piece_length)) by (nonlinear_arith)
            requires
                count == piece_length / 16384 + if piece_length % 16384 == 0 { 0int } else { 1int },
        {
        }
        let block_count = count as usize;
        let mut blocks: Vec<Option<Vec<u8>>> = Vec::new();
        let mut requested: Vec<bool> = Vec::new();
        let mut i: usize = 0;
        while i < block_count
            invariant
                i <= block_count,
                blocks@.len() == i,
                requested@.len() == i,
                forall|j: int| 0 <= j < i ==> blocks@[j] is None,
                forall|j: int| 0 <= j < i ==> !requested@[j],
            decreases block_count - i,
        {
            blocks.push(None);
            requested.push(false);
            i = i + 1;
        }
        let r = Self { blocks, requested, piece_length, block_count };
        assert(r.blocks() =~= Seq::new(blocks_in(piece_length), |i: int| None::<Seq<u8>>));
        assert(r.requested() =~= Seq::new(blocks_in(piece_length), |i: int| false));
        r
    }

    /// Withdraw the requests of every block that has not arrived.
    pub fn cancel_unfinished(&mut self)
        requires
            old(self).wf(),
        ensures
            final(self).wf(),
            final(self).piece_length() == old(self).piece_length(),
            final(self).blocks() == old(self).blocks(),
            final(self).requested() == cancelled(old(self).blocks(), old(self).requested()),
    {
        let ghost bs = self.blocks();
        let ghost rq = self.requested@;
        let n = self.requested.len();
        let mut index: usize = 0;
        while index < n
            invariant
                self.wf(),
                n == rq.len(),
                index <= n,
                self.blocks() == bs,
                self.piece_length() == old(self).piece_length(),
                bs == old(self).blocks(),
                rq == old(self).requested(),
                self.requested@.len() == n,
                forall|j: int| 0 <= j < index ==> #[trigger] self.requested@[j] == (rq[j] && bs[j] is Some),
                forall|j: int| index <= j < n ==> #[trigger] self.requested@[j] == rq[j],
            decreases n - index,
        {
            assert(bs[index as int] == match self.blocks@[index as int] {
                Some(v) => Some(v@),
                None => None::<Seq<u8>>,
            });
            let ghost prev = self.requested@;
            let missing = self.blocks[index].is_none();
            assert(missing == bs[index as int] is None);
            if missing {
                self.requested.set(index, false);
            }
            assert forall|j: int| 0 <= j < index + 1 implies #[trigger] self.requested@[j] == (rq[j]
                && bs[j] is Some) by {
                if j < index {
                    assert(self.requested@[j] == prev[j]);
                }
            }
            index = index + 1;
        }
        assert(self.requested@ =~= cancelled(bs, rq));
    }
}

} // verus!
