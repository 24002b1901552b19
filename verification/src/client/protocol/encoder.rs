//! Encoding an owned value back into bencode bytes.

use vstd::prelude::*;

use crate::bencode::encoder::{encode_integer, encode_string, encode_entries, encode_items, spec_encode};
use crate::bencode::spec::{entries_height, height, items_height, lemma_entries_height, lemma_items_height, SpecBencode};

use super::{lemma_values_view, values_view, Bencode};

verus! {

/// The bencode bytes of a value: dictionary entries are written in key
/// order, the order a dictionary keeps them in.
pub fn encode(bencode: &Bencode) -> (r: Vec<u8>)
    ensures
        r@ == spec_encode(bencode@),
{
    let mut out: Vec<u8> = Vec::new();
    encode_into(bencode, &mut out);
    assert(out@ =~= spec_encode(bencode@));
    out
}

fn encode_into(value: &Bencode, out: &mut Vec<u8>)
    ensures
        final(out)@ == old(out)@ + spec_encode(value@),
    decreases height(value@),
{
    match value {
        Bencode::Integer(n) => encode_integer(*n, out),
        Bencode::String(b) => encode_string(b.as_slice(), out),
        Bencode::List(items) => {
            let ghost start = out@;
            let ghost vs = values_view(items@);
            proof {
                lemma_values_view(items@);
                lemma_items_height(vs);
            }
            out.push(108);
            let mut i: usize = 0;
            while i < items.len()
                invariant
                    i <= items@.len(),
                    vs == values_view(items@),
                    vs.len() == items@.len(),
                    value@ == SpecBencode::List(vs),
                    forall|j: int| 0 <= j < vs.len() ==> #[trigger] vs[j] == items@[j].view(),
                    forall|j: int| 0 <= j < vs.len() ==> height(#[trigger] vs[j]) <= items_height(vs),
                    out@ == start + seq![108u8] + encode_items(vs.take(i as int)),
                decreases items@.len() - i,
            {
                assert(height(items@[i as int]@) <= items_height(vs)) by {
                    assert(vs[i as int] == items@[i as int]@);
                }
                encode_into(&items[i], out);
                assert(vs.take(i + 1).drop_last() =~= vs.take(i as int));
                i = i + 1;
            }
            out.push(101);
            assert(vs.take(i as int) =~= vs);
            assert(out@ =~= start + spec_encode(SpecBencode::List(vs)));
        },
        Bencode::Dictionary(d) => {
            let ghost start = out@;
            let ghost es = d@;
            proof {
                lemma_entries_height(es);
            }
            out.push(100);
            let n = d.len();
            let mut i: usize = 0;
            while i < n
                invariant
                    n == es.len(),
                    es == d@,
                    i <= n,
                    value@ == SpecBencode::Dict(es),
                    forall|j: int| 0 <= j < es.len() ==> height(#[trigger] es[j].1) <= entries_height(es),
                    out@ == start + seq![100u8] + encode_entries(es.take(i as int)),
                decreases n - i,
            {
                let key = d.key_at(i);
                let v = d.value_at(i);
                assert(height(v@) <= entries_height(es));
                encode_string(key, out);
                encode_into(v, out);
                assert(es.take(i + 1).drop_last() =~= es.take(i as int));
                i = i + 1;
            }
            out.push(101);
            assert(es.take(i as int) =~= es);
            assert(out@ =~= start + spec_encode(SpecBencode::Dict(es)));
        },
    }
}

} // verus!
