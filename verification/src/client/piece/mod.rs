//! Which pieces this side has, and which are being fetched.

use std::collections::HashSet;

use vstd::prelude::*;

use crate::bittorrent::bitfield::count_set;
use crate::client::peer::bitfield::{missing_pieces, Bitfield};

pub mod in_progress;
pub mod picker;

verus! {

broadcast use vstd::std_specs::hash::group_hash_axioms;

/// The first candidate not already claimed.
pub open spec fn first_unclaimed(cand: Seq<usize>, pending: Set<u32>) -> Option<usize>
    decreases cand.len(),
{
    if cand.len() == 0 {
        None
    } else if !pending.contains(cand[0] as u32) {
        Some(cand[0])
    } else {
        first_unclaimed(cand.drop_first(), pending)
    }
}

/// The length of piece `index` of content `length` bytes long in pieces of
/// `piece_length`: a whole piece, the remainder for the last, zero past
/// the end.
pub open spec fn spec_piece_len(length: u64, piece_length: u64, index: u32) -> u32 {
    let remaining = length - index * piece_length;
    let rem: int = if remaining > 0 { remaining } else { 0 };
    (if rem < piece_length { rem } else { piece_length as int }) as u32
}

/// This side's pieces, and the pieces claimed for fetching.
#[derive(Debug)]
pub struct PieceManager {
    have: Bitfield,
    pending: HashSet<u32>,
    piece_length: u64,
    length: u64,
}

impl PieceManager {
    /// The pieces this side has.
    pub closed spec fn have_bits(self) -> Seq<bool> {
        self.have.bits()
    }

    /// The piece count the bitfield was made with.
    pub closed spec fn have_pieces(self) -> usize {
        self.have.pieces()
    }

    /// The pieces claimed and not yet had or released.
    pub closed spec fn pending(self) -> Set<u32> {
        self.pending@
    }

    /// The piece size.
    pub closed spec fn spec_piece_length(self) -> u64 {
        self.piece_length
    }

    /// The content length.
    pub closed spec fn spec_length(self) -> u64 {
        self.length
    }

    /// Nothing had, nothing claimed.
    pub fn new(piece_count: usize, piece_length: u64, length: u64) -> (r: Self)
        requires
            piece_count <= usize::MAX / 8,
        ensures
            r.have_bits() == Seq::new(piece_count as nat, |i: int| false),
            r.pending() == Set::<u32>::empty(),
            r.have_pieces() == piece_count,
            r.spec_piece_length() == piece_length,
            r.spec_length() == length,
    {
        Self { have: Bitfield::new(piece_count), pending: HashSet::new(), piece_length, length }
    }

    /// This side's bitfield.
    pub fn have(&self) -> (r: &Bitfield)
        ensures
            r.bits() == self.have_bits(),
    {
        &self.have
    }

    /// Give up a claim on a piece this side does not have.
    pub fn release(&mut self, index: u32)
        ensures
            final(self).have_bits() == old(self).have_bits(),
            final(self).pending() == if index < old(self).have_bits().len() && old(self).have_bits()[index as int] {
                old(self).pending()
            } else {
                old(self).pending().remove(index)
            },
            final(self).have_pieces() == old(self).have_pieces(),
            final(self).spec_piece_length() == old(self).spec_piece_length(),
            final(self).spec_length() == old(self).spec_length(),
    {
        if !self.have.has(index as usize) {
            self.pending.remove(&index);
        }
    }

    /// Record that piece `index` is now held: it is had, and no longer
    /// claimed. An index past the piece count is only unclaimed.
    pub fn mark_have(&mut self, index: u32)
        ensures
            final(self).have_bits() == if index < old(self).have_bits().len() {
                old(self).have_bits().update(index as int, true)
            } else {
                old(self).have_bits()
            },
            final(self).pending() == old(self).pending().remove(index),
            final(self).have_pieces() == old(self).have_pieces(),
            final(self).spec_piece_length() == old(self).spec_piece_length(),
            final(self).spec_length() == old(self).spec_length(),
    {
        if (index as usize) < self.have.len() {
            self.have.set(index as usize);
        }
        self.pending.remove(&index);
    }

    /// Claim the first piece this side lacks, the peer has, and nobody has
    /// claimed yet.
    pub fn claim_piece(&mut self, peer_bitfield: &Bitfield) -> (r: Option<u32>)
        ensures
            final(self).have_bits() == old(self).have_bits(),
            final(self).have_pieces() == old(self).have_pieces(),
            final(self).spec_piece_length() == old(self).spec_piece_length(),
            final(self).spec_length() == old(self).spec_length(),
            match first_unclaimed(
                missing_pieces(old(self).have_bits(), peer_bitfield.bits(), old(self).have_pieces() as nat),
                old(self).pending(),
            ) {
                Some(i) => r == Some(i as u32) && final(self).pending() == old(self).pending().insert(i as u32),
                None => r is None && final(self).pending() == old(self).pending(),
            },
    {
        let cand = self.have.missing(peer_bitfield);
        let ghost c = cand@;
        let mut k: usize = 0;
        assert(c.skip(0) =~= c);
        while k < cand.len()
            invariant
                k <= c.len(),
                c == cand@,
                c == missing_pieces(old(self).have_bits(), peer_bitfield.bits(), old(self).have_pieces() as nat),
                self.have_bits() == old(self).have_bits(),
                self.have_pieces() == old(self).have_pieces(),
                self.spec_piece_length() == old(self).spec_piece_length(),
                self.spec_length() == old(self).spec_length(),
                self.pending() == old(self).pending(),
                first_unclaimed(c, self.pending@) == first_unclaimed(c.skip(k as int), self.pending@),
            decreases c.len() - k,
        {
            let i = cand[k];
            assert(c.skip(k as int)[0] == i);
            let claimed = self.pending.contains(&(i as u32));
            if !claimed {
                self.pending.insert(i as u32);
                return Some(i as u32);
            }
            assert(c.skip(k as int).drop_first() =~= c.skip(k + 1));
            k = k + 1;
        }
        None
    }

    /// Whether every piece is had.
    pub fn is_complete(&self) -> (r: bool)
        ensures
            r == (count_set(self.have_bits()) == self.have_bits().len()),
    {
        self.have.is_complete()
    }

    /// The length of piece `index`.
    pub fn piece_len(&self, index: u32) -> (r: u32)
        requires
            index * self.spec_piece_length() <= u64::MAX,
        ensures
            r == spec_piece_len(self.spec_length(), self.spec_piece_length(), index),
    {
        let start = index as u64 * self.piece_length;
        let remaining = self.length.saturating_sub(start);
        let n = if remaining < self.piece_length { remaining } else { self.piece_length };
        n as u32
    }
}

/// A piece handed out by [`PieceManager::claim_piece`] is one this side
/// lacks and the peer has, and claiming again before a release never hands
/// it out twice.
pub proof fn law_claims_are_exclusive(have: Seq<bool>, theirs: Seq<bool>, pending: Set<u32>)
    requires
        have.len() <= u32::MAX,
    ensures
        first_unclaimed(missing_pieces(have, theirs, have.len()), pending) matches Some(i) ==> {
            &&& !(have[i as int]) && (i as int) < theirs.len() && theirs[i as int]
            &&& !pending.contains(i as u32)
            &&& first_unclaimed(missing_pieces(have, theirs, have.len()), pending.insert(i as u32)) != Some(i)
        },
{
    let cand = missing_pieces(have, theirs, have.len());
    lemma_missing_pieces(have, theirs, have.len());
    lemma_first_unclaimed(cand, pending);
    if let Some(i) = first_unclaimed(cand, pending) {
        lemma_first_unclaimed(cand, pending.insert(i as u32));
    }
}

/// The candidates are wanted pieces below `n`.
pub proof fn lemma_missing_pieces(mine: Seq<bool>, theirs: Seq<bool>, n: nat)
    requires
        n <= usize::MAX,
    ensures
        forall|k: int| 0 <= k < missing_pieces(mine, theirs, n).len() ==> {
            &&& (#[trigger] missing_pieces(mine, theirs, n)[k]) < n
            &&& crate::client::peer::bitfield::wanted(mine, theirs, missing_pieces(mine, theirs, n)[k] as int)
        },
    decreases n,
{
    if n > 0 {
        let before = missing_pieces(mine, theirs, (n - 1) as nat);
        lemma_missing_pieces(mine, theirs, (n - 1) as nat);
        let m = missing_pieces(mine, theirs, n);
        assert forall|k: int| 0 <= k < m.len() implies {
            &&& (#[trigger] m[k]) < n
            &&& crate::client::peer::bitfield::wanted(mine, theirs, m[k] as int)
        } by {
            if k < before.len() {
                assert(m[k] == before[k]);
            }
        }
    }
}

/// The first unclaimed candidate is a candidate, and not claimed.
pub proof fn lemma_first_unclaimed(cand: Seq<usize>, pending: Set<u32>)
    ensures
        first_unclaimed(cand, pending) matches Some(i) ==> cand.contains(i) && !pending.contains(i as u32),
    decreases cand.len(),
{
    if cand.len() > 0 && pending.contains(cand[0] as u32) {
        lemma_first_unclaimed(cand.drop_first(), pending);
        if let Some(i) = first_unclaimed(cand.drop_first(), pending) {
            let k = choose|k: int| 0 <= k < cand.drop_first().len() && cand.drop_first()[k] == i;
            assert(cand[k + 1] == i);
        }
    } else if cand.len() > 0 {
        assert(cand[0] == cand[0]);
    }
}

/// The pieces to fetch below `n` are exactly the wanted ones, each once,
/// in increasing order: every entry is below `n` and wanted, a wanted piece
/// below `n` is listed, and entries strictly increase.
pub proof fn law_missing_pieces_are_the_wanted_ones(mine: Seq<bool>, theirs: Seq<bool>, n: nat)
    requires
        n <= usize::MAX,
    ensures
        forall|k: int| 0 <= k < missing_pieces(mine, theirs, n).len() ==> {
            &&& (#[trigger] missing_pieces(mine, theirs, n)[k]) < n
            &&& crate::client::peer::bitfield::wanted(mine, theirs, missing_pieces(mine, theirs, n)[k] as int)
        },
        forall|i: int| 0 <= i < n && crate::client::peer::bitfield::wanted(mine, theirs, i) ==> #[trigger] missing_pieces(
            mine,
            theirs,
            n,
        ).contains(i as usize),
        forall|j: int, k: int|
            0 <= j < k < missing_pieces(mine, theirs, n).len() ==> #[trigger] missing_pieces(mine, theirs, n)[j]
                < #[trigger] missing_pieces(mine, theirs, n)[k],
    decreases n,
{
    lemma_missing_pieces(mine, theirs, n);
    if n > 0 {
        let before = missing_pieces(mine, theirs, (n - 1) as nat);
        law_missing_pieces_are_the_wanted_ones(mine, theirs, (n - 1) as nat);
        let m = missing_pieces(mine, theirs, n);
        assert forall|i: int| 0 <= i < n && crate::client::peer::bitfield::wanted(mine, theirs, i) implies #[trigger] m.contains(
            i as usize,
        ) by {
            if i < n - 1 {
                assert(before.contains(i as usize));
                let k = choose|k: int| 0 <= k < before.len() && before[k] == i as usize;
                assert(m[k] == before[k]);
            } else {
                assert(m[m.len() - 1] == (n - 1) as usize);
            }
        }
        assert forall|j: int, k: int| 0 <= j < k < m.len() implies #[trigger] m[j] < #[trigger] m[k] by {
            if k < before.len() {
                assert(m[j] == before[j] && m[k] == before[k]);
            } else {
                assert(m[j] == before[j]);
                assert(before[j] < n - 1);
            }
        }
    }
}

/// Pieces tile the content: piece `index` starts at `index * piece_length`
/// and never runs past the end; it is whole while a whole piece fits,
/// reaches exactly to the end when the end falls inside it, and is empty
/// from the end on.
pub proof fn law_pieces_tile_the_content(length: u64, piece_length: u64, index: u32)
    requires
        0 < piece_length <= u32::MAX,
    ensures
        index * piece_length + spec_piece_len(length, piece_length, index) <= length || spec_piece_len(length, piece_length, index) == 0,
        (index + 1) * piece_length <= length ==> spec_piece_len(length, piece_length, index) == piece_length,
        index * piece_length <= length < (index + 1) * piece_length ==> index * piece_length + spec_piece_len(length, piece_length, index) == length,
        length <= index * piece_length ==> spec_piece_len(length, piece_length, index) == 0,
{
    assert((index + 1) * piece_length == index * piece_length + piece_length) by (nonlinear_arith);
}

} // verus!
