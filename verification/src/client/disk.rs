//! The disk side of a download: where blocks go in the content, which
//! blocks of each piece have arrived, and whether a finished piece matches
//! its hash.
//!
//! The bytes themselves live in storage the caller owns (a memory-mapped
//! file); these functions say where to write and read them.

use std::collections::{HashMap, HashSet};
use std::sync::Arc;

use vstd::prelude::*;

use crate::client::metainfo::file_layout::layout_length;
use crate::client::metainfo::info_dictionary::{info_piece_count, info_piece_len, InfoDictionary, SpecInfo};
use crate::client::piece::PieceManager;
use crate::hashing::{sha1, sha1_digest};

verus! {

broadcast use vstd::std_specs::hash::group_hash_axioms;

/// The outcome of checking a finished piece against its hash.
#[derive(Debug, Clone, Copy, PartialEq, Eq, Structural)]
pub enum DiskEvent {
    PieceVerified(u32),
    PieceFailed(u32),
}

/// A received block, to be written.
#[derive(Debug)]
pub struct Block {
    pub index: u32,
    pub begin: u32,
    pub data: Vec<u8>,
}

/// Which blocks of a piece have arrived.
#[derive(Debug)]
pub struct Progress {
    received: HashSet<u32>,
    total_blocks: u32,
}

impl Progress {
    /// The offsets received so far.
    pub closed spec fn received(self) -> Set<u32> {
        self.received@
    }

    /// How many blocks the piece has.
    pub closed spec fn total(self) -> u32 {
        self.total_blocks
    }

    pub fn new(total_blocks: u32) -> (r: Self)
        ensures
            r.received() == Set::<u32>::empty(),
            r.total() == total_blocks,
    {
        Self { received: HashSet::with_capacity(total_blocks as usize), total_blocks }
    }

    /// Note that the block at `begin` arrived; a repeat counts once.
    pub fn insert(&mut self, begin: u32)
        ensures
            final(self).received() == old(self).received().insert(begin),
            final(self).total() == old(self).total(),
    {
        self.received.insert(begin);
    }

    /// Whether as many distinct blocks arrived as the piece has.
    pub fn is_complete(&self) -> (r: bool)
        ensures
            r == (self.received().len() == self.total()),
    {
        self.received.len() == self.total_blocks as usize
    }
}

/// The size of a block requested from a peer.
const BLOCK_SIZE: u64 = 16384;

/// Where piece `index` starts in the content.
pub open spec fn piece_offset(info: SpecInfo, index: u32) -> int {
    index * info.piece_length
}

/// Whether the bytes of piece `index` lie inside `storage` and hash to the
/// piece's recorded SHA-1.
pub open spec fn piece_matches(info: SpecInfo, storage: Seq<u8>, index: u32) -> bool {
    let start = piece_offset(info, index);
    let len = info_piece_len(info, index);
    &&& start + len <= storage.len()
    &&& 20 * index + 20 <= info.pieces.len()
    &&& sha1(storage.subrange(start, start + len)) == info.pieces.subrange(20 * index, 20 * index + 20)
}

/// How many blocks a piece of `len` bytes has.
pub open spec fn block_total(len: u32) -> u32 {
    ((len + 16383) / 16384) as u32
}

/// The received blocks of each piece being written, and the torrent they
/// belong to.
#[derive(Debug)]
pub struct DiskManager {
    info_dictionary: Arc<InfoDictionary>,
    progress: HashMap<u32, Progress>,
}

impl DiskManager {
    /// The torrent.
    pub closed spec fn info(&self) -> SpecInfo {
        (*self.info_dictionary)@
    }

    /// The pieces with blocks received, and which blocks.
    pub closed spec fn progress(&self) -> Map<u32, Progress> {
        self.progress@
    }

    /// The torrent's sizes fit in 64 bits and its pieces are numbered in 32.
    pub closed spec fn wf(&self) -> bool {
        &&& layout_length(self.info().layout) <= u64::MAX
        &&& info_piece_count(self.info()) * self.info().piece_length <= u64::MAX
        &&& info_piece_count(self.info()) <= u32::MAX
    }

    pub fn new(info_dictionary: Arc<InfoDictionary>) -> (r: Self)
        requires
            layout_length((*info_dictionary)@.layout) <= u64::MAX,
            info_piece_count((*info_dictionary)@) * (*info_dictionary)@.piece_length <= u64::MAX,
            info_piece_count((*info_dictionary)@) <= u32::MAX,
        ensures
            r.wf(),
            r.info() == (*info_dictionary)@,
            r.progress() == Map::<u32, Progress>::empty(),
    {
        Self { info_dictionary, progress: HashMap::new() }
    }

    /// The length of piece `index`, for an index below the piece count.
    fn piece_len(&self, index: u32) -> (r: u32)
        requires
            self.wf(),
            index < info_piece_count(self.info()),
        ensures
            r == info_piece_len(self.info(), index),
    {
        proof {
            let pc = info_piece_count(self.info());
            let pl = self.info().piece_length;
            assert(index * pl <= pc * pl) by (nonlinear_arith)
                requires
                    index < pc,
            ;
        }
        self.info_dictionary.piece_len(index)
    }

    /// Whether piece `index` in `storage` hashes to its recorded SHA-1.
    /// A piece past the piece count, or whose bytes run past the end of
    /// `storage`, does not.
    fn piece_ok(&self, storage: &[u8], index: u32) -> (r: bool)
        requires
            self.wf(),
        ensures
            r == (index < info_piece_count(self.info()) && piece_matches(self.info(), storage@, index)),
    {
        if index as usize >= self.info_dictionary.piece_count() {
            return false;
        }
        proof {
            let pc = info_piece_count(self.info());
            let pl = self.info().piece_length;
            assert(index * pl <= pc * pl) by (nonlinear_arith)
                requires
                    index < pc,
            ;
        }
        let start: u64 = index as u64 * self.info_dictionary.piece_length();
        let len = self.piece_len(index);
        if start > storage.len() as u64 || len as u64 > storage.len() as u64 - start {
            return false;
        }
        let s = start as usize;
        let e = s + len as usize;
        let got = sha1_digest(slice_range(storage, s, e));
        match self.info_dictionary.piece_hash(index as usize) {
            Some(expected) => bytes20_eq(&got, &expected),
            None => false,
        }
    }

    /// Mark every piece whose bytes in `storage` already match its hash as
    /// had: how a download picks up where it left off.
    pub fn resume(&self, storage: &[u8], piece_manager: &mut PieceManager)
        requires
            self.wf(),
        ensures
            final(piece_manager).have_pieces() == old(piece_manager).have_pieces(),
            final(piece_manager).spec_piece_length() == old(piece_manager).spec_piece_length(),
            final(piece_manager).spec_length() == old(piece_manager).spec_length(),
            final(piece_manager).have_bits().len() == old(piece_manager).have_bits().len(),
            forall|j: int|
                0 <= j < old(piece_manager).have_bits().len() ==> #[trigger] final(piece_manager).have_bits()[j]
                    == (old(piece_manager).have_bits()[j] || (j < info_piece_count(self.info())
                    && piece_matches(self.info(), storage@, j as u32))),
            forall|k: u32|
                #[trigger] final(piece_manager).pending().contains(k) == (old(piece_manager).pending().contains(k)
                    && !(k < info_piece_count(self.info()) && piece_matches(self.info(), storage@, k))),
    {
        let count = self.info_dictionary.piece_count();
        let ghost bits0 = piece_manager.have_bits();
        let ghost pend0 = piece_manager.pending();
        let mut i: usize = 0;
        while i < count
            invariant
                self.wf(),
                count == info_piece_count(self.info()),
                i <= count,
                piece_manager.have_pieces() == old(piece_manager).have_pieces(),
                piece_manager.spec_piece_length() == old(piece_manager).spec_piece_length(),
                piece_manager.spec_length() == old(piece_manager).spec_length(),
                bits0 == old(piece_manager).have_bits(),
                pend0 == old(piece_manager).pending(),
                piece_manager.have_bits().len() == bits0.len(),
                forall|j: int|
                    0 <= j < bits0.len() ==> #[trigger] piece_manager.have_bits()[j] == (bits0[j] || (j < i
                        && piece_matches(self.info(), storage@, j as u32))),
                forall|k: u32|
                    #[trigger] piece_manager.pending().contains(k) == (pend0.contains(k) && !(k < i
                        && piece_matches(self.info(), storage@, k))),
            decreases count - i,
        {
            let index = i as u32;
            if self.piece_ok(storage, index) {
                piece_manager.mark_have(index);
            }
            i = i + 1;
        }
    }

    /// Where a block of `len` bytes at `begin` in piece `index` goes in the
    /// content: its start and end, or `None` when it would run past the
    /// end of the content (or past what a `usize` can address).
    pub fn block_span(&self, index: u32, begin: u32, len: usize) -> (r: Option<(usize, usize)>)
        requires
            self.wf(),
        ensures
            match r {
                Some((s, e)) => {
                    &&& s == piece_offset(self.info(), index) + begin
                    &&& e == s + len
                    &&& e <= layout_length(self.info().layout)
                },
                None => piece_offset(self.info(), index) + begin + len > layout_length(self.info().layout)
                    || piece_offset(self.info(), index) + begin + len > usize::MAX,
            },
    {
        let length = self.info_dictionary.length();
        let piece_length = self.info_dictionary.piece_length();
        if piece_length > 0 && index as u64 > length / piece_length {
            proof {
                assert((length / piece_length + 1) * piece_length > length) by (nonlinear_arith)
                    requires
                        piece_length > 0,
                ;
                assert(index * piece_length >= (length / piece_length + 1) * piece_length) by (nonlinear_arith)
                    requires
                        index >= length / piece_length + 1,
                ;
            }
            return None;
        }
        proof {
            if piece_length > 0 {
                assert(index * piece_length <= (length / piece_length) * piece_length) by (nonlinear_arith)
                    requires
                        index <= length / piece_length,
                ;
                assert((length / piece_length) * piece_length <= length) by (nonlinear_arith)
                    requires
                        piece_length > 0,
                ;
            }
        }
        let start: u64 = index as u64 * piece_length;
        if start > length || (begin as u64) > length - start {
            return None;
        }
        let s: u64 = start + begin as u64;
        if len as u64 > length - s {
            return None;
        }
        let e: u64 = s + len as u64;
        if e > usize::MAX as u64 {
            return None;
        }
        Some((s as usize, e as usize))
    }

    /// Note that the block at `begin` of piece `index` was written. Gives
    /// `true` when that completes the piece, which is then forgotten here.
    pub fn record_block(&mut self, index: u32, begin: u32) -> (complete: bool)
        requires
            old(self).wf(),
            index < info_piece_count(old(self).info()),
        ensures
            final(self).wf(),
            final(self).info() == old(self).info(),
            ({
                let (received, total) = if old(self).progress().contains_key(index) {
                    (old(self).progress()[index].received(), old(self).progress()[index].total())
                } else {
                    (Set::<u32>::empty(), block_total(info_piece_len(old(self).info(), index)))
                };
                let received = received.insert(begin);
                &&& complete == (received.len() == total)
                &&& if complete {
                    final(self).progress() == old(self).progress().remove(index)
                } else {
                    &&& final(self).progress().dom() == old(self).progress().dom().insert(index)
                    &&& forall|k: u32|
                        #[trigger] old(self).progress().contains_key(k) && k != index
                            ==> final(self).progress()[k] == old(self).progress()[k]
                    &&& final(self).progress()[index].received() == received
                    &&& final(self).progress()[index].total() == total
                }
            }),
    {
        let mut entry = match self.progress.remove(&index) {
            Some(p) => p,
            None => {
                let len = self.piece_len(index) as u64;
                let total = ((len + (BLOCK_SIZE - 1)) / BLOCK_SIZE) as u32;
                Progress::new(total)
            },
        };
        entry.insert(begin);
        if entry.is_complete() {
            return true;
        }
        self.progress.insert(index, entry);
        false
    }

    /// Check piece `index` in `storage` against its hash.
    pub fn verify_hash(&self, storage: &[u8], piece_index: u32) -> (r: DiskEvent)
        requires
            self.wf(),
        ensures
            r == if piece_index < info_piece_count(self.info()) && piece_matches(self.info(), storage@, piece_index) {
                DiskEvent::PieceVerified(piece_index)
            } else {
                DiskEvent::PieceFailed(piece_index)
            },
    {
        if self.piece_ok(storage, piece_index) {
            DiskEvent::PieceVerified(piece_index)
        } else {
            DiskEvent::PieceFailed(piece_index)
        }
    }
}

/// The bytes of `data` from `start` up to `end`.
fn slice_range(data: &[u8], start: usize, end: usize) -> (r: &[u8])
    requires
        start <= end <= data@.len(),
    ensures
        r@ == data@.subrange(start as int, end as int),
{
    vstd::slice::slice_subrange(data, start, end)
}

/// Whether two 20-byte strings are equal.
fn bytes20_eq(a: &[u8; 20], b: &[u8; 20]) -> (r: bool)
    ensures
        r == (a@ == b@),
{
    let mut i: usize = 0;
    while i < 20
        invariant
            i <= 20,
            forall|j: int| 0 <= j < i ==> a@[j] == b@[j],
        decreases 20 - i,
    {
        if a[i] != b[i] {
            return false;
        }
        i = i + 1;
    }
    assert(a@ =~= b@);
    true
}

} // verus!
