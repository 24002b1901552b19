//! Tracking which pieces a peer has.
//!
//! Peers announce their pieces as a packed bit array, one bit per piece and
//! eight per byte. Bits are numbered from the left of each byte, as the wire
//! format requires: piece 0 is the highest bit of the first byte, piece 7 the
//! lowest, piece 8 the highest of the second byte.

use vstd::prelude::*;
use vstd::slice::slice_to_vec;

verus! {

/// A peer sent a bitfield that does not match this torrent.
#[derive(Debug, Clone, Copy, PartialEq, Eq, Structural)]
pub enum BitfieldError {
    /// The byte count does not match the piece count.
    WrongLength { expected: usize, got: usize, piece_count: usize },
    /// A bit past the last real piece was set.
    SpareBitsSet,
}

/// Whether bit `j` of `b` is set, counting from the highest bit.
pub open spec fn bit_at(b: u8, j: u8) -> bool {
    b & (0x80u8 >> j) != 0
}

/// Whether piece `i` is marked in the packed bytes.
pub open spec fn piece_bit(bits: Seq<u8>, i: int) -> bool {
    bit_at(bits[i / 8], (i % 8) as u8)
}

/// How many bytes `piece_count` pieces occupy: one bit each, rounded up.
pub open spec fn byte_len(piece_count: nat) -> nat {
    (piece_count + 7) / 8
}

/// Every bit past the last real piece is clear.
pub open spec fn spare_clear(bits: Seq<u8>, piece_count: nat) -> bool {
    forall|i: int| piece_count <= i < bits.len() * 8 ==> !#[trigger] piece_bit(bits, i)
}

/// Bytes that are a bitfield for `piece_count` pieces.
pub open spec fn well_formed_bits(bits: Seq<u8>, piece_count: nat) -> bool {
    bits.len() == byte_len(piece_count) && spare_clear(bits, piece_count)
}

/// The pieces the bytes mark present, one flag per piece.
pub open spec fn pieces_of(bits: Seq<u8>, piece_count: nat) -> Seq<bool> {
    Seq::new(piece_count, |i: int| piece_bit(bits, i))
}

/// How many flags are set.
pub open spec fn count_set(s: Seq<bool>) -> nat
    decreases s.len(),
{
    if s.len() == 0 {
        0
    } else {
        count_set(s.drop_last()) + if s.last() {
            1nat
        } else {
            0nat
        }
    }
}

/// Why [`Bitfield::from_bytes`] refuses `bytes` for `piece_count` pieces, if
/// it does.
pub open spec fn from_bytes_error(bytes: Seq<u8>, piece_count: usize) -> Option<BitfieldError> {
    if bytes.len() != byte_len(piece_count as nat) {
        Some(
            BitfieldError::WrongLength {
                expected: byte_len(piece_count as nat) as usize,
                got: bytes.len() as usize,
                piece_count,
            },
        )
    } else if !spare_clear(bytes, piece_count as nat) {
        Some(BitfieldError::SpareBitsSet)
    } else {
        None
    }
}

/// Which pieces are present, one bit each.
#[derive(Debug)]
pub struct Bitfield {
    /// The packed bits, eight pieces per byte; the spare bits of the last
    /// byte are always clear.
    bits: Vec<u8>,
    /// How many pieces the torrent has.
    piece_count: usize,
}

impl View for Bitfield {
    type V = Seq<bool>;

    open spec fn view(&self) -> Seq<bool> {
        pieces_of(self.bytes(), self.pieces() as nat)
    }
}

proof fn lemma_mask_is_bit(r: u8)
    by (bit_vector)
    requires
        r < 8,
    ensures
        1u8 << ((7 - r) as u8) == 0x80u8 >> r,
{
}

proof fn lemma_zero_has_no_bits(j: u8)
    by (bit_vector)
    ensures
        0u8 & (0x80u8 >> j) == 0,
{
}

proof fn lemma_or_bit(b: u8, k: u8, j: u8)
    by (bit_vector)
    requires
        k < 8,
        j < 8,
    ensures
        ((b | (0x80u8 >> k)) & (0x80u8 >> j) != 0) == ((b & (0x80u8 >> j) != 0) || j == k),
{
}

proof fn lemma_spare_mask_clear(b: u8, u: u8, j: u8)
    by (bit_vector)
    requires
        0 < u < 8,
        u <= j < 8,
        b & (0xFFu8 >> u) == 0,
    ensures
        b & (0x80u8 >> j) == 0,
{
}

proof fn lemma_spare_mask_cases(b: u8, u: u8)
    by (bit_vector)
    requires
        0 < u < 8,
        b & (0xFFu8 >> u) != 0,
    ensures
        (u <= 1 && b & (0x80u8 >> 1u8) != 0) || (u <= 2 && b & (0x80u8 >> 2u8) != 0) || (u <= 3
            && b & (0x80u8 >> 3u8) != 0) || (u <= 4 && b & (0x80u8 >> 4u8) != 0) || (u <= 5 && b & (
        0x80u8 >> 5u8) != 0) || (u <= 6 && b & (0x80u8 >> 6u8) != 0) || (u <= 7 && b & (0x80u8
            >> 7u8) != 0),
{
}

/// A spare bit that the mask test found set.
proof fn lemma_spare_witness(b: u8, u: u8) -> (j: u8)
    requires
        0 < u < 8,
        b & (0xFFu8 >> u) != 0,
    ensures
        u <= j < 8,
        bit_at(b, j),
{
    lemma_spare_mask_cases(b, u);
    if u <= 1 && b & (0x80u8 >> 1u8) != 0 {
        1
    } else if u <= 2 && b & (0x80u8 >> 2u8) != 0 {
        2
    } else if u <= 3 && b & (0x80u8 >> 3u8) != 0 {
        3
    } else if u <= 4 && b & (0x80u8 >> 4u8) != 0 {
        4
    } else if u <= 5 && b & (0x80u8 >> 5u8) != 0 {
        5
    } else if u <= 6 && b & (0x80u8 >> 6u8) != 0 {
        6
    } else {
        7
    }
}

/// At most one flag per element is counted.
pub proof fn lemma_count_bounded(s: Seq<bool>)
    ensures
        count_set(s) <= s.len(),
    decreases s.len(),
{
    if s.len() > 0 {
        lemma_count_bounded(s.drop_last());
    }
}

/// Every flag is set exactly when all of them are counted.
pub proof fn lemma_count_full(s: Seq<bool>)
    ensures
        count_set(s) == s.len() <==> forall|i: int| 0 <= i < s.len() ==> #[trigger] s[i],
    decreases s.len(),
{
    if s.len() > 0 {
        let t = s.drop_last();
        lemma_count_full(t);
        lemma_count_bounded(t);
        if count_set(s) == s.len() {
            assert forall|i: int| 0 <= i < s.len() implies #[trigger] s[i] by {
                if i < t.len() {
                    assert(t[i] == s[i]);
                }
            }
        }
        if forall|i: int| 0 <= i < s.len() ==> #[trigger] s[i] {
            assert forall|i: int| 0 <= i < t.len() implies #[trigger] t[i] by {
                assert(s[i]);
            }
            assert(s[s.len() - 1]);
        }
    }
}

impl Bitfield {
    #[verifier::type_invariant]
    spec fn well_formed(self) -> bool {
        well_formed_bits(self.bits@, self.piece_count as nat)
    }

    /// The packed bytes.
    pub closed spec fn bytes(self) -> Seq<u8> {
        self.bits@
    }

    /// How many pieces the torrent has.
    pub closed spec fn pieces(self) -> usize {
        self.piece_count
    }

    /// An empty bitfield with room for `piece_count` pieces.
    pub fn new(piece_count: usize) -> (r: Self)
        ensures
            r.pieces() == piece_count,
            r.bytes() == Seq::new(byte_len(piece_count as nat), |i: int| 0u8),
            r@ == Seq::new(piece_count as nat, |i: int| false),
    {
        // One bit per piece, rounded up to whole bytes.
        let len: usize = piece_count / 8 + if piece_count % 8 != 0 {
            1
        } else {
            0
        };
        let mut bits: Vec<u8> = Vec::new();
        let mut k: usize = 0;
        while k < len
            invariant
                k <= len,
                bits@ == Seq::new(k as nat, |i: int| 0u8),
            decreases len - k,
        {
            bits.push(0);
            k = k + 1;
        }
        assert forall|i: int| 0 <= i < bits@.len() * 8 implies !#[trigger] piece_bit(bits@, i) by {
            lemma_zero_has_no_bits((i % 8) as u8);
        }
        let r = Bitfield { bits, piece_count };
        assert(r@ =~= Seq::new(piece_count as nat, |i: int| false));
        r
    }

    /// Build a bitfield from the bytes a peer sent.
    ///
    /// Refused when the byte count is wrong for `piece_count`, or when a bit
    /// past the last real piece is set.
    pub fn from_bytes(bytes: &[u8], piece_count: usize) -> (r: Result<Self, BitfieldError>)
        ensures
            match from_bytes_error(bytes@, piece_count) {
                None => r is Ok && r->Ok_0.bytes() == bytes@ && r->Ok_0.pieces() == piece_count,
                Some(e) => r == Err::<Self, BitfieldError>(e),
            },
    {
        let expected: usize = piece_count / 8 + if piece_count % 8 != 0 {
            1
        } else {
            0
        };
        if bytes.len() != expected {
            return Err(BitfieldError::WrongLength { expected, got: bytes.len(), piece_count });
        }
        let used: usize = piece_count % 8;
        if used != 0 {
            let u: u8 = used as u8;
            // Ones in every spare position: `used = 3` gives 0b0001_1111.
            let spare_mask: u8 = 0xFFu8 >> u;
            let last: u8 = bytes[bytes.len() - 1];
            if last & spare_mask != 0 {
                proof {
                    let j = lemma_spare_witness(last, u);
                    let i = 8 * (bytes@.len() - 1) + j;
                    assert(i / 8 == bytes@.len() - 1);
                    assert(i % 8 == j);
                    assert(piece_bit(bytes@, i));
                }
                return Err(BitfieldError::SpareBitsSet);
            }
            proof {
                assert forall|i: int| piece_count <= i < bytes@.len() * 8 implies !#[trigger] piece_bit(
                    bytes@,
                    i,
                ) by {
                    assert(i / 8 == bytes@.len() - 1);
                    lemma_spare_mask_clear(last, u, (i % 8) as u8);
                }
            }
        }
        Ok(Bitfield { bits: slice_to_vec(bytes), piece_count })
    }

    /// The packed bits, for sending to a peer.
    pub fn bits(&self) -> (r: &[u8])
        ensures
            r@ == self.bytes(),
            well_formed_bits(r@, self.pieces() as nat),
    {
        proof {
            use_type_invariant(self);
        }
        self.bits.as_slice()
    }

    /// How many pieces the torrent has.
    pub fn piece_count(&self) -> (r: usize)
        ensures
            r == self.pieces(),
            r == self@.len(),
    {
        self.piece_count
    }

    /// Is this piece present? Pieces out of range are not.
    pub fn has(&self, piece: usize) -> (r: bool)
        ensures
            r == (piece < self.pieces() && self@[piece as int]),
    {
        proof {
            use_type_invariant(self);
        }
        if piece >= self.piece_count {
            return false;
        }
        let byte_idx = piece / 8;
        let slot: u8 = (piece % 8) as u8;
        let mask: u8 = 1u8 << (7 - slot);
        proof {
            lemma_mask_is_bit(slot);
        }
        self.bits[byte_idx] & mask != 0
    }

    /// Mark a piece as present. Out-of-range pieces are ignored.
    pub fn set(&mut self, piece: usize)
        ensures
            final(self).pieces() == old(self).pieces(),
            final(self)@ == if piece < old(self).pieces() {
                old(self)@.update(piece as int, true)
            } else {
                old(self)@
            },
    {
        proof {
            use_type_invariant(&*self);
        }
        if piece >= self.piece_count {
            return;
        }
        let byte_idx = piece / 8;
        let slot: u8 = (piece % 8) as u8;
        let mask: u8 = 1u8 << (7 - slot);
        proof {
            lemma_mask_is_bit(slot);
        }
        let ghost old_bits = self.bits@;
        let mut taken = Bitfield { bits: Vec::new(), piece_count: 0 };
        std::mem::swap(&mut taken, self);
        let Bitfield { bits: mut bits, piece_count } = taken;
        let b = bits[byte_idx];
        bits.set(byte_idx, b | mask);
        proof {
            assert forall|i: int| 0 <= i < bits@.len() * 8 implies #[trigger] piece_bit(bits@, i) == (
            piece_bit(old_bits, i) || i == piece) by {
                if i / 8 == byte_idx {
                    lemma_or_bit(b, slot, (i % 8) as u8);
                }
            }
        }
        *self = Bitfield { bits, piece_count };
        assert(self@ =~= old(self)@.update(piece as int, true));
    }

    /// How many pieces are marked present.
    pub fn count(&self) -> (r: usize)
        ensures
            r == count_set(self@),
    {
        let mut c: usize = 0;
        let mut i: usize = 0;
        while i < self.piece_count
            invariant
                i <= self.pieces(),
                c <= i,
                c == count_set(self@.take(i as int)),
            decreases self.pieces() - i,
        {
            let ghost s = self@.take(i as int + 1);
            assert(s.drop_last() =~= self@.take(i as int));
            if self.has(i) {
                c = c + 1;
            }
            i = i + 1;
        }
        assert(self@.take(i as int) =~= self@);
        c
    }

    /// Whether every piece is present.
    pub fn is_complete(&self) -> (r: bool)
        ensures
            r == (count_set(self@) == self@.len()),
            r <==> forall|i: int| 0 <= i < self@.len() ==> #[trigger] self@[i],
    {
        proof {
            lemma_count_full(self@);
        }
        self.count() == self.piece_count
    }
}

/// Every well-formed bitfield's bytes are accepted back by
/// [`Bitfield::from_bytes`], which then holds the same bytes: what is sent
/// to a peer is what a peer can send back.
pub proof fn law_bits_round_trip(bytes: Seq<u8>, piece_count: usize)
    requires
        well_formed_bits(bytes, piece_count as nat),
    ensures
        from_bytes_error(bytes, piece_count) is None,
{
}

/// Marking a piece present is local and idempotent: afterwards the piece
/// reads as present, every other piece reads as before, and marking it a
/// second time changes nothing.
pub proof fn law_set_then_has(before: Seq<bool>, piece: int)
    requires
        0 <= piece < before.len(),
    ensures
        before.update(piece, true)[piece],
        forall|q: int| 0 <= q < before.len() && q != piece ==> #[trigger] before.update(piece, true)[q] == before[q],
        before.update(piece, true).update(piece, true) == before.update(piece, true),
{
    assert(before.update(piece, true).update(piece, true) =~= before.update(piece, true));
}

/// The weight of bit `j` of a byte when bits are counted from the highest:
/// 128 for the first, 1 for the eighth.
pub open spec fn msb_weight(j: int) -> int {
    if j == 0 {
        128
    } else if j == 1 {
        64
    } else if j == 2 {
        32
    } else if j == 3 {
        16
    } else if j == 4 {
        8
    } else if j == 5 {
        4
    } else if j == 6 {
        2
    } else {
        1
    }
}

proof fn lemma_bit_at_weight(b: u8, j: u8)
    requires
        j < 8,
    ensures
        bit_at(b, j) <==> (b as int / msb_weight(j as int)) % 2 == 1,
{
    if j == 0 {
        assert(b & (0x80u8 >> 0u8) != 0 <==> (b / 128) % 2 == 1) by (bit_vector);
    } else if j == 1 {
        assert(b & (0x80u8 >> 1u8) != 0 <==> (b / 64) % 2 == 1) by (bit_vector);
    } else if j == 2 {
        assert(b & (0x80u8 >> 2u8) != 0 <==> (b / 32) % 2 == 1) by (bit_vector);
    } else if j == 3 {
        assert(b & (0x80u8 >> 3u8) != 0 <==> (b / 16) % 2 == 1) by (bit_vector);
    } else if j == 4 {
        assert(b & (0x80u8 >> 4u8) != 0 <==> (b / 8) % 2 == 1) by (bit_vector);
    } else if j == 5 {
        assert(b & (0x80u8 >> 5u8) != 0 <==> (b / 4) % 2 == 1) by (bit_vector);
    } else if j == 6 {
        assert(b & (0x80u8 >> 6u8) != 0 <==> (b / 2) % 2 == 1) by (bit_vector);
    } else {
        assert(b & (0x80u8 >> 7u8) != 0 <==> b % 2 == 1) by (bit_vector);
    }
}

/// Pieces are packed eight to a byte, highest bit first: piece `i` is
/// marked exactly when byte `i / 8` has the bit of weight
/// `2^(7 - i % 8)` set, so piece 0 is the top bit of the first byte.
pub proof fn law_pieces_are_packed_high_bit_first(bits: Seq<u8>, i: int)
    requires
        0 <= i < bits.len() * 8,
    ensures
        piece_bit(bits, i) <==> (bits[i / 8] as int / msb_weight(i % 8)) % 2 == 1,
{
    lemma_bit_at_weight(bits[i / 8], (i % 8) as u8);
}

} // verus!
