//! Fixed-width big-endian integers, as the peer wire protocol and tracker
//! responses write them.

use vstd::prelude::*;

verus! {

/// The four big-endian bytes of `v`.
pub open spec fn u32_be(v: u32) -> Seq<u8> {
    seq![(v / 0x100_0000) as u8, (v / 0x1_0000 % 0x100) as u8, (v / 0x100 % 0x100) as u8, (v % 0x100) as u8]
}

/// The big-endian number the first four bytes of `b` spell.
pub open spec fn be_u32(b: Seq<u8>) -> u32
    recommends
        b.len() >= 4,
{
    (b[0] as int * 0x100_0000 + b[1] as int * 0x1_0000 + b[2] as int * 0x100 + b[3] as int) as u32
}

/// The big-endian number the first two bytes of `b` spell.
pub open spec fn be_u16(b: Seq<u8>) -> u16
    recommends
        b.len() >= 2,
{
    (b[0] as int * 0x100 + b[1] as int) as u16
}

proof fn lemma_u32_digits(v: u32)
    by (bit_vector)
    ensures
        ((v / 0x100_0000) as u8) as u32 * 0x100_0000 + ((v / 0x1_0000 % 0x100) as u8) as u32 * 0x1_0000
            + ((v / 0x100 % 0x100) as u8) as u32 * 0x100 + ((v % 0x100) as u8) as u32 == v,
{
}

/// Reading back the bytes of a number gives the number, whatever follows.
pub proof fn lemma_be_u32_of_bytes(v: u32, rest: Seq<u8>)
    ensures
        be_u32(u32_be(v) + rest) == v,
{
    lemma_u32_digits(v);
    let b = u32_be(v) + rest;
    assert(b[0] == (v / 0x100_0000) as u8);
    assert(b[1] == (v / 0x1_0000 % 0x100) as u8);
    assert(b[2] == (v / 0x100 % 0x100) as u8);
    assert(b[3] == (v % 0x100) as u8);
}

/// Append the four big-endian bytes of `v`.
pub fn put_u32(buf: &mut Vec<u8>, v: u32)
    ensures
        final(buf)@ == old(buf)@ + u32_be(v),
{
    buf.push((v / 0x100_0000) as u8);
    buf.push((v / 0x1_0000 % 0x100) as u8);
    buf.push((v / 0x100 % 0x100) as u8);
    buf.push((v % 0x100) as u8);
    assert(final(buf)@ =~= old(buf)@ + u32_be(v));
}

/// The big-endian number in `b[at..at + 4]`.
pub fn get_u32(b: &[u8], at: usize) -> (r: u32)
    requires
        at + 4 <= b@.len(),
    ensures
        r == be_u32(b@.skip(at as int)),
{
    let v: u64 = b[at] as u64 * 0x100_0000 + b[at + 1] as u64 * 0x1_0000 + b[at + 2] as u64 * 0x100
        + b[at + 3] as u64;
    v as u32
}

/// The big-endian number in `b[at..at + 2]`.
pub fn get_u16(b: &[u8], at: usize) -> (r: u16)
    requires
        at + 2 <= b@.len(),
    ensures
        r == be_u16(b@.skip(at as int)),
{
    let v: u32 = b[at] as u32 * 0x100 + b[at + 1] as u32;
    v as u16
}

} // verus!
