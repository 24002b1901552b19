//! Encoding [`Bencode`] values back into bytes.
//!
//! Encoding is the exact inverse of decoding: a value decoded from bytes and
//! re-encoded reproduces those bytes identically. Nothing here fails.

use vstd::prelude::*;

use super::spec::{
    entries_height, height, items_height, lemma_entries_height, lemma_items_height, SpecBencode,
};
use super::value::{lemma_list_view, list_view, Bencode, Dictionary};

verus! {

/// The ASCII digit for `d` (which is below ten).
pub open spec fn digit_byte(d: nat) -> u8 {
    (d + 48) as u8
}

/// `n` in decimal ASCII digits, with no leading zeros.
pub open spec fn nat_text(n: nat) -> Seq<u8>
    decreases n,
{
    if n < 10 {
        seq![digit_byte(n)]
    } else {
        nat_text(n / 10).push(digit_byte(n % 10))
    }
}

/// `n` in decimal, with a leading `-` when negative.
pub open spec fn int_text(n: int) -> Seq<u8> {
    if n < 0 {
        seq![45u8] + nat_text((-n) as nat)
    } else {
        nat_text(n as nat)
    }
}

/// A byte string: its length in decimal, a `:`, then the bytes.
pub open spec fn encode_str(b: Seq<u8>) -> Seq<u8> {
    nat_text(b.len()) + seq![58u8] + b
}

/// The bencode encoding of a value.
pub open spec fn spec_encode(v: SpecBencode) -> Seq<u8>
    decreases v,
{
    match v {
        SpecBencode::Int(n) => seq![105u8] + int_text(n) + seq![101u8],
        SpecBencode::Str(b) => encode_str(b),
        SpecBencode::List(items) => seq![108u8] + encode_items(items) + seq![101u8],
        SpecBencode::Dict(entries) => seq![100u8] + encode_entries(entries) + seq![101u8],
    }
}

/// The encodings of a sequence of values, one after another.
pub open spec fn encode_items(s: Seq<SpecBencode>) -> Seq<u8>
    decreases s,
{
    if s.len() == 0 {
        Seq::empty()
    } else {
        encode_items(s.drop_last()) + spec_encode(s.last())
    }
}

/// Each key's encoding followed by its value's, in order.
pub open spec fn encode_entries(s: Seq<(Seq<u8>, SpecBencode)>) -> Seq<u8>
    decreases s,
{
    if s.len() == 0 {
        Seq::empty()
    } else {
        encode_entries(s.drop_last()) + encode_str(s.last().0) + spec_encode(s.last().1)
    }
}

/// Starting buffer size, chosen so small torrents never reallocate.
const INITIAL_CAPACITY: usize = 1024;

/// Encode a value into a new byte buffer.
pub fn encode(value: &Bencode) -> (out: Vec<u8>)
    ensures
        out@ == spec_encode(value@),
{
    let mut out = Vec::with_capacity(INITIAL_CAPACITY);
    encode_into(value, &mut out);
    assert(out@ =~= spec_encode(value@));
    out
}

/// Encode a value, appending to an existing buffer.
pub fn encode_into(value: &Bencode, out: &mut Vec<u8>)
    ensures
        final(out)@ == old(out)@ + spec_encode(value@),
    decreases height(value@), 0nat,
{
    match value {
        Bencode::Integer(number) => encode_integer(*number, out),
        Bencode::String(bytes) => encode_string(bytes, out),
        Bencode::List(items) => encode_list(items.as_slice(), out),
        Bencode::Dictionary(entries) => encode_dictionary(entries, out),
    }
}

/// Append the decimal digits of `n`.
pub(crate) fn push_decimal(n: u64, out: &mut Vec<u8>)
    ensures
        final(out)@ == old(out)@ + nat_text(n as nat),
    decreases n,
{
    if n >= 10 {
        push_decimal(n / 10, out);
    }
    out.push((n % 10) as u8 + 48);
    assert(final(out)@ =~= old(out)@ + nat_text(n as nat));
}

/// Write an integer as `i`, its decimal digits, then `e`.
pub(crate) fn encode_integer(number: i64, out: &mut Vec<u8>)
    ensures
        final(out)@ == old(out)@ + spec_encode(SpecBencode::Int(number as int)),
{
    let ghost start = out@;
    out.push(105);
    if number < 0 {
        out.push(45);
        let magnitude: u64 = if number == i64::MIN {
            0x8000_0000_0000_0000
        } else {
            (-number) as u64
        };
        push_decimal(magnitude, out);
    } else {
        push_decimal(number as u64, out);
    }
    out.push(101);
    assert(out@ =~= start + spec_encode(SpecBencode::Int(number as int)));
}

/// Write a byte string as its length in decimal, a `:`, then the bytes.
pub(crate) fn encode_string(bytes: &[u8], out: &mut Vec<u8>)
    ensures
        final(out)@ == old(out)@ + spec_encode(SpecBencode::Str(bytes@)),
{
    let ghost start = out@;
    push_decimal(bytes.len() as u64, out);
    out.push(58);
    let ghost mid = out@;
    let mut i: usize = 0;
    while i < bytes.len()
        invariant
            i <= bytes@.len(),
            out@ == mid + bytes@.take(i as int),
        decreases bytes@.len() - i,
    {
        out.push(bytes[i]);
        assert(bytes@.take(i + 1) =~= bytes@.take(i as int).push(bytes@[i as int]));
        i = i + 1;
    }
    assert(bytes@.take(i as int) =~= bytes@);
    assert(out@ =~= start + spec_encode(SpecBencode::Str(bytes@)));
}

/// Write a list as `l`, each item in order, then `e`.
fn encode_list(items: &[Bencode], out: &mut Vec<u8>)
    ensures
        final(out)@ == old(out)@ + spec_encode(SpecBencode::List(list_view(items@))),
    decreases items_height(list_view(items@)), 1nat,
{
    let ghost start = out@;
    let ghost vs = list_view(items@);
    proof {
        lemma_list_view(items@);
        lemma_items_height(vs);
    }
    out.push(108);
    let mut i: usize = 0;
    while i < items.len()
        invariant
            i <= items@.len(),
            vs == list_view(items@),
            vs.len() == items@.len(),
            forall|j: int| 0 <= j < vs.len() ==> #[trigger] vs[j] == items@[j].view(),
            forall|j: int| 0 <= j < vs.len() ==> height(#[trigger] vs[j]) <= items_height(vs),
            out@ == start + seq![108u8] + encode_items(vs.take(i as int)),
        decreases items@.len() - i,
    {
        assert(height(items@[i as int]@) <= items_height(vs)) by {
            assert(vs[i as int] == items@[i as int]@);
        }
        encode_into(&items[i], out);
        assert(vs.take(i + 1).drop_last() =~= vs.take(i as int));
        i = i + 1;
    }
    out.push(101);
    assert(vs.take(i as int) =~= vs);
    assert(out@ =~= start + spec_encode(SpecBencode::List(vs)));
}

/// Write a dictionary as `d`, alternating keys and values, then `e`.
///
/// The dictionary keeps its keys in byte order, so no sorting happens here.
fn encode_dictionary(entries: &Dictionary, out: &mut Vec<u8>)
    ensures
        final(out)@ == old(out)@ + spec_encode(SpecBencode::Dict(entries@)),
    decreases entries_height(entries@), 1nat,
{
    let ghost start = out@;
    let ghost es = entries@;
    proof {
        lemma_entries_height(es);
    }
    out.push(100);
    let n = entries.len();
    let mut i: usize = 0;
    while i < n
        invariant
            n == es.len(),
            es == entries@,
            i <= n,
            forall|j: int| 0 <= j < es.len() ==> height(#[trigger] es[j].1) <= entries_height(es),
            out@ == start + seq![100u8] + encode_entries(es.take(i as int)),
        decreases n - i,
    {
        let key = entries.key_at(i);
        let value = entries.value_at(i);
        encode_string(key, out);
        encode_into(value, out);
        assert(es.take(i + 1).drop_last() =~= es.take(i as int));
        i = i + 1;
    }
    out.push(101);
    assert(es.take(i as int) =~= es);
    assert(out@ =~= start + spec_encode(SpecBencode::Dict(es)));
}

} // verus!
