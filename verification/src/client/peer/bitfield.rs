//! Which pieces a peer has, held in a `bitvec` bit vector with the highest
//! bit of each byte first, as the wire format sends it.

use bitvec::order::Msb0;
use bitvec::vec::BitVec;
use vstd::prelude::*;

use crate::bittorrent::bitfield::{byte_len, count_set, lemma_count_bounded, lemma_count_full, piece_bit};

verus! {

/// A `bitvec` bit vector over bytes, highest bit first. Verus sees only the
/// names below, `bitvec_bits` and `bitvec_raw`.
#[verifier::external_body]
#[derive(Debug)]
pub struct PackedBits {
    bits: BitVec<u8, Msb0>,
}

/// The bits a bit vector holds, in order.
pub uninterp spec fn bitvec_bits(v: PackedBits) -> Seq<bool>;

/// The bytes a bit vector stores its bits in.
pub uninterp spec fn bitvec_raw(v: PackedBits) -> Seq<u8>;

/// Calls `BitVec::repeat(false, len)`.
///
/// Trusted: `len` clear bits, stored in `len` bits rounded up to whole bytes,
/// all zero. Lengths past `BitSlice::MAX_BITS` (`usize::MAX >> 3`) are left
/// out: the crate panics on them.
#[verifier::external_body]
fn bitvec_repeat_false(len: usize) -> (r: PackedBits)
    requires
        len <= usize::MAX / 8,
    ensures
        bitvec_bits(r) == Seq::new(len as nat, |i: int| false),
        bitvec_raw(r) == Seq::new(byte_len(len as nat), |i: int| 0u8),
{
    PackedBits { bits: BitVec::repeat(false, len) }
}

/// Calls `BitVec::from_vec`.
///
/// Trusted: the bytes become the storage, and the bits are all of theirs,
/// highest first in each byte. Vectors whose bit count passes
/// `usize::MAX >> 3` are left out: the crate panics on them.
#[verifier::external_body]
fn bitvec_from_vec(bytes: Vec<u8>) -> (r: PackedBits)
    requires
        bytes@.len() <= usize::MAX / 64,
    ensures
        bitvec_raw(r) == bytes@,
        bitvec_bits(r) == Seq::new(8 * bytes@.len(), |i: int| piece_bit(bytes@, i)),
{
    PackedBits { bits: BitVec::from_vec(bytes) }
}

/// Calls `BitVec::as_raw_slice`: the storage bytes.
#[verifier::external_body]
fn bitvec_as_raw_slice(v: &PackedBits) -> (r: &[u8])
    ensures
        r@ == bitvec_raw(*v),
{
    v.bits.as_raw_slice()
}

/// Calls `BitSlice::get` with one index: the bit, or `None` past the end.
#[verifier::external_body]
fn bitvec_get(v: &PackedBits, index: usize) -> (r: Option<bool>)
    ensures
        r == if index < bitvec_bits(*v).len() {
            Some(bitvec_bits(*v)[index as int])
        } else {
            None::<bool>
        },
{
    v.bits.get(index).map(|b| *b)
}

/// Calls `BitSlice::set`.
///
/// Trusted: the bit at `index` becomes `value` and every other bit, stored
/// or spare, is left alone. Indices past the end are left out: the crate
/// panics on them.
#[verifier::external_body]
fn bitvec_set(v: &mut PackedBits, index: usize, value: bool)
    requires
        index < bitvec_bits(*old(v)).len(),
    ensures
        bitvec_bits(*final(v)) == bitvec_bits(*old(v)).update(index as int, value),
        bitvec_raw(*final(v)).len() == bitvec_raw(*old(v)).len(),
        forall|j: int|
            0 <= j < 8 * bitvec_raw(*old(v)).len() ==> #[trigger] piece_bit(bitvec_raw(*final(v)), j) == if j
                == index {
                value
            } else {
                piece_bit(bitvec_raw(*old(v)), j)
            },
{
    v.bits.set(index, value)
}

/// Calls `BitSlice::len`: how many bits are held.
#[verifier::external_body]
fn bitvec_len(v: &PackedBits) -> (r: usize)
    ensures
        r == bitvec_bits(*v).len(),
{
    v.bits.len()
}

/// Calls `BitSlice::all`: whether every bit is set.
#[verifier::external_body]
fn bitvec_all(v: &PackedBits) -> (r: bool)
    ensures
        r == forall|i: int| 0 <= i < bitvec_bits(*v).len() ==> #[trigger] bitvec_bits(*v)[i],
{
    v.bits.all()
}

/// Calls `BitSlice::count_ones`: how many bits are set.
#[verifier::external_body]
fn bitvec_count_ones(v: &PackedBits) -> (r: usize)
    ensures
        r == count_set(bitvec_bits(*v)),
{
    v.bits.count_ones()
}

/// Calls `BitSlice::count_zeros`: how many bits are clear.
#[verifier::external_body]
fn bitvec_count_zeros(v: &PackedBits) -> (r: usize)
    ensures
        r == bitvec_bits(*v).len() - count_set(bitvec_bits(*v)),
{
    v.bits.count_zeros()
}

/// Whether piece `i` is one to fetch: absent from `mine`, present in
/// `theirs` (a position past a sequence's end is absent).
pub open spec fn wanted(mine: Seq<bool>, theirs: Seq<bool>, i: int) -> bool {
    !(i < mine.len() && mine[i]) && i < theirs.len() && theirs[i]
}

/// The pieces below `n` to fetch, in increasing order.
pub open spec fn missing_pieces(mine: Seq<bool>, theirs: Seq<bool>, n: nat) -> Seq<usize>
    decreases n,
{
    if n == 0 {
        Seq::empty()
    } else {
        let before = missing_pieces(mine, theirs, (n - 1) as nat);
        if wanted(mine, theirs, n - 1) {
            before.push((n - 1) as usize)
        } else {
            before
        }
    }
}

/// Which pieces a peer has.
#[derive(Debug)]
pub struct Bitfield {
    data: PackedBits,
    /// How many pieces the torrent has.
    pub piece_count: usize,
}

impl Bitfield {
    /// The flags, one per bit held.
    pub closed spec fn bits(self) -> Seq<bool> {
        bitvec_bits(self.data)
    }

    /// The bytes the bits are stored in.
    pub closed spec fn raw(self) -> Seq<u8> {
        bitvec_raw(self.data)
    }

    /// The piece count it was made with.
    pub closed spec fn pieces(self) -> usize {
        self.piece_count
    }

    /// `piece_count` clear bits.
    pub fn new(piece_count: usize) -> (r: Self)
        requires
            piece_count <= usize::MAX / 8,
        ensures
            r.bits() == Seq::new(piece_count as nat, |i: int| false),
            r.raw() == Seq::new(byte_len(piece_count as nat), |i: int| 0u8),
            r.pieces() == piece_count,
    {
        Self { data: bitvec_repeat_false(piece_count), piece_count }
    }

    /// The bits of the bytes a peer sent, all eight of each, unchecked.
    pub fn from_bytes(data: Vec<u8>, piece_count: usize) -> (r: Self)
        requires
            data@.len() <= usize::MAX / 64,
        ensures
            r.raw() == data@,
            r.bits() == Seq::new(8 * data@.len(), |i: int| piece_bit(data@, i)),
            r.pieces() == piece_count,
    {
        Self { data: bitvec_from_vec(data), piece_count }
    }

    /// The storage bytes, for sending to a peer.
    pub fn as_bytes(&self) -> (r: &[u8])
        ensures
            r@ == self.raw(),
    {
        bitvec_as_raw_slice(&self.data)
    }

    /// How many pieces the torrent has.
    pub fn piece_count(&self) -> (r: usize)
        ensures
            r == self.pieces(),
    {
        self.piece_count
    }

    /// How many bits are held.
    pub fn len(&self) -> (r: usize)
        ensures
            r == self.bits().len(),
    {
        bitvec_len(&self.data)
    }

    /// Whether bit `index` is set; `false` past the end.
    pub fn has(&self, index: usize) -> (r: bool)
        ensures
            r == (index < self.bits().len() && self.bits()[index as int]),
    {
        match bitvec_get(&self.data, index) {
            Some(b) => b,
            None => false,
        }
    }

    /// Set bit `index`.
    pub fn set(&mut self, index: usize)
        requires
            index < old(self).bits().len(),
        ensures
            final(self).bits() == old(self).bits().update(index as int, true),
            final(self).pieces() == old(self).pieces(),
    {
        bitvec_set(&mut self.data, index, true);
    }

    /// The pieces below the piece count that this side lacks and `peer`
    /// has, in increasing order.
    pub fn missing(&self, peer_bitfield: &Bitfield) -> (r: Vec<usize>)
        ensures
            r@ == missing_pieces(self.bits(), peer_bitfield.bits(), self.pieces() as nat),
    {
        let mut out: Vec<usize> = Vec::new();
        let mut index: usize = 0;
        while index < self.piece_count
            invariant
                index <= self.pieces(),
                out@ == missing_pieces(self.bits(), peer_bitfield.bits(), index as nat),
            decreases self.pieces() - index,
        {
            if !self.has(index) && peer_bitfield.has(index) {
                out.push(index);
            }
            index = index + 1;
        }
        out
    }

    /// Whether every bit is set.
    pub fn is_complete(&self) -> (r: bool)
        ensures
            r == forall|i: int| 0 <= i < self.bits().len() ==> #[trigger] self.bits()[i],
            r == (count_set(self.bits()) == self.bits().len()),
    {
        proof {
            lemma_count_full(self.bits());
        }
        bitvec_all(&self.data)
    }

    /// How many bits are set.
    pub fn count_ones(&self) -> (r: usize)
        ensures
            r == count_set(self.bits()),
    {
        bitvec_count_ones(&self.data)
    }

    /// How many bits are clear.
    pub fn count_zeros(&self) -> (r: usize)
        ensures
            r == self.bits().len() - count_set(self.bits()),
    {
        proof {
            lemma_count_bounded(self.bits());
        }
        bitvec_count_zeros(&self.data)
    }
}

impl Default for Bitfield {
    /// A bitfield of no pieces.
    fn default() -> (r: Self)
        ensures
            r.bits() == Seq::<bool>::empty(),
            r.pieces() == 0,
    {
        let r = Bitfield::new(0);
        assert(r.bits() =~= Seq::<bool>::empty());
        r
    }
}

} // verus!
