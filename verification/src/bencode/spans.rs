//! What the spans of [`decode_dictionary_with_spans`] are good for: the
//! bytes of each span decode, on their own, to the value stored under its
//! key, so a caller can hash a value's original encoding directly.
//!
//! [`decode_dictionary_with_spans`]: super::decoder::decode_dictionary_with_spans

use vstd::prelude::*;

use super::cursor::DEPTH_MAX;
use super::decoder::{
    digit_run_end, lemma_dict_entries_advances, lemma_digit_run_end, lemma_list_items_advances,
    lemma_parse_advances, spec_decode, spec_decode_with_spans, spec_dict_entries, spec_digits,
    spec_integer, spec_list_items, spec_parse, spec_span_entries, spec_string, Span,
};
use super::spec::{dict_get, dict_insert, SpecBencode};

verus! {

// ---------------------------------------------------------------------
// Parsing only looks at the bytes it consumes.
// ---------------------------------------------------------------------

proof fn lemma_run_local(data: Seq<u8>, s: nat, e: nat, pos: nat)
    requires
        s <= pos,
        digit_run_end(data, pos) < e,
        e <= data.len(),
    ensures
        digit_run_end(data.subrange(s as int, e as int), (pos - s) as nat) == digit_run_end(data, pos) - s,
    decreases data.len() - pos,
{
    let t = data.subrange(s as int, e as int);
    lemma_digit_run_end(data, pos);
    if pos < data.len() && super::decoder::is_digit(data[pos as int]) {
        lemma_run_local(data, s, e, pos + 1);
        assert(t[(pos - s) as int] == data[pos as int]);
        assert((pos + 1 - s) as nat == (pos - s) as nat + 1);
    } else {
        assert(t[(pos - s) as int] == data[pos as int]);
    }
}

proof fn lemma_digits_local(data: Seq<u8>, s: nat, e: nat, pos: nat, stop: u8)
    requires
        s <= pos,
        e <= data.len(),
        spec_digits(data, pos, stop) matches Ok((_, q)) && q <= e,
    ensures
        spec_digits(data, pos, stop) matches Ok((n, q)) && spec_digits(
            data.subrange(s as int, e as int),
            (pos - s) as nat,
            stop,
        ) == Ok::<(nat, nat), super::decoder::DecoderError>((n, (q - s) as nat)),
{
    let t = data.subrange(s as int, e as int);
    let end = digit_run_end(data, pos);
    lemma_digit_run_end(data, pos);
    lemma_run_local(data, s, e, pos);
    let tp = (pos - s) as nat;
    let tend = digit_run_end(t, tp);
    assert(tend == end - s);
    assert(t.subrange(tp as int, tend as int) =~= data.subrange(pos as int, end as int));
    assert(t[tend as int] == data[end as int]);
    if end > pos + 1 {
        assert(t[tp as int] == data[pos as int]);
    }
}

proof fn lemma_string_local(data: Seq<u8>, s: nat, e: nat, pos: nat)
    requires
        s <= pos,
        e <= data.len(),
        spec_string(data, pos) matches Ok((_, q)) && q <= e,
    ensures
        spec_string(data, pos) matches Ok((b, q)) && spec_string(
            data.subrange(s as int, e as int),
            (pos - s) as nat,
        ) == Ok::<(Seq<u8>, nat), super::decoder::DecoderError>((b, (q - s) as nat)),
{
    let t = data.subrange(s as int, e as int);
    let (n, p) = spec_digits(data, pos, 58)->Ok_0;
    lemma_digit_run_end(data, pos);
    lemma_digits_local(data, s, e, pos, 58);
    let tp = (p - s) as nat;
    assert(t.subrange(tp as int, (tp + n) as int) =~= data.subrange(p as int, (p + n) as int));
}

proof fn lemma_integer_local(data: Seq<u8>, s: nat, e: nat, pos: nat)
    requires
        s <= pos,
        e <= data.len(),
        spec_integer(data, pos) matches Ok((_, q)) && q <= e,
    ensures
        spec_integer(data, pos) matches Ok((v, q)) && spec_integer(
            data.subrange(s as int, e as int),
            (pos - s) as nat,
        ) == Ok::<(SpecBencode, nat), super::decoder::DecoderError>((v, (q - s) as nat)),
{
    let t = data.subrange(s as int, e as int);
    let p = pos + 1;
    let negative = data[p as int] == 45;
    let q = if negative { p + 1 } else { p };
    lemma_digit_run_end(data, q);
    lemma_digits_local(data, s, e, q, 101);
    assert(t[(p - s) as int] == data[p as int]);
    assert((p - s) as nat == (pos - s) as nat + 1);
    assert((q - s) as nat == (if negative { (p - s) as nat + 1 } else { (p - s) as nat }));
}

/// A value parsed at `pos` parses the same from any window of the input
/// that holds its bytes, and at no greater nesting depth.
proof fn lemma_parse_local(data: Seq<u8>, s: nat, e: nat, pos: nat, d: nat, d2: nat)
    requires
        s <= pos,
        e <= data.len(),
        d2 <= d,
        spec_parse(data, pos, d) matches Ok((_, q, _)) && q <= e,
    ensures
        spec_parse(data, pos, d) matches Ok((v, q, o)) && spec_parse(
            data.subrange(s as int, e as int),
            (pos - s) as nat,
            d2,
        ) == Ok::<(SpecBencode, nat, bool), super::decoder::DecoderError>((v, (q - s) as nat, o)),
    decreases data.len() - pos, 2nat,
{
    let t = data.subrange(s as int, e as int);
    let tp = (pos - s) as nat;
    lemma_parse_advances(data, pos, d);
    assert(t[tp as int] == data[pos as int]);
    let b = data[pos as int];
    if super::decoder::is_digit(b) {
        lemma_string_local(data, s, e, pos);
    } else if b == 105 {
        lemma_integer_local(data, s, e, pos);
    } else if b == 100 {
        assert(d2 + 1 <= DEPTH_MAX);
        lemma_dict_local(data, s, e, pos + 1, d + 1, d2 + 1, Seq::empty(), true);
        assert((pos + 1 - s) as nat == tp + 1);
    } else {
        assert(d2 + 1 <= DEPTH_MAX);
        lemma_list_local(data, s, e, pos + 1, d + 1, d2 + 1, Seq::empty(), true);
        assert((pos + 1 - s) as nat == tp + 1);
    }
}

proof fn lemma_list_local(
    data: Seq<u8>,
    s: nat,
    e: nat,
    pos: nat,
    d: nat,
    d2: nat,
    acc: Seq<SpecBencode>,
    ordered: bool,
)
    requires
        s <= pos,
        e <= data.len(),
        d2 <= d,
        spec_list_items(data, pos, d, acc, ordered) matches Ok((_, q, _)) && q <= e,
    ensures
        spec_list_items(data, pos, d, acc, ordered) matches Ok((v, q, o)) && spec_list_items(
            data.subrange(s as int, e as int),
            (pos - s) as nat,
            d2,
            acc,
            ordered,
        ) == Ok::<(SpecBencode, nat, bool), super::decoder::DecoderError>((v, (q - s) as nat, o)),
    decreases data.len() - pos, 3nat,
{
    let t = data.subrange(s as int, e as int);
    let tp = (pos - s) as nat;
    lemma_list_items_advances(data, pos, d, acc, ordered);
    assert(t[tp as int] == data[pos as int]);
    if data[pos as int] != 101 {
        let (v, p, o) = spec_parse(data, pos, d)->Ok_0;
        lemma_list_items_advances(data, p, d, acc.push(v), ordered && o);
        lemma_parse_local(data, s, e, pos, d, d2);
        lemma_list_local(data, s, e, p, d, d2, acc.push(v), ordered && o);
    }
}

proof fn lemma_dict_local(
    data: Seq<u8>,
    s: nat,
    e: nat,
    pos: nat,
    d: nat,
    d2: nat,
    acc: Seq<(Seq<u8>, SpecBencode)>,
    ordered: bool,
)
    requires
        s <= pos,
        e <= data.len(),
        d2 <= d,
        spec_dict_entries(data, pos, d, acc, ordered) matches Ok((_, q, _)) && q <= e,
    ensures
        spec_dict_entries(data, pos, d, acc, ordered) matches Ok((v, q, o)) && spec_dict_entries(
            data.subrange(s as int, e as int),
            (pos - s) as nat,
            d2,
            acc,
            ordered,
        ) == Ok::<(SpecBencode, nat, bool), super::decoder::DecoderError>((v, (q - s) as nat, o)),
    decreases data.len() - pos, 3nat,
{
    let t = data.subrange(s as int, e as int);
    let tp = (pos - s) as nat;
    lemma_dict_entries_advances(data, pos, d, acc, ordered);
    assert(t[tp as int] == data[pos as int]);
    if data[pos as int] != 101 {
        let (k, p1) = spec_string(data, pos)->Ok_0;
        let (v, p2, o) = spec_parse(data, p1, d)->Ok_0;
        let acc2 = dict_insert(acc, k, v);
        let ord2 = ordered && o && super::decoder::key_in_order(acc, k);
        lemma_dict_entries_advances(data, p2, d, acc2, ord2);
        lemma_string_local(data, s, e, pos);
        lemma_parse_local(data, s, e, p1, d, d2);
        lemma_dict_local(data, s, e, p2, d, d2, acc2, ord2);
    }
}

// ---------------------------------------------------------------------
// The spans and the root dictionary are built side by side.
// ---------------------------------------------------------------------

/// The bytes at `sp` in `data` parse (one level deep) to exactly `v`.
pub open spec fn span_holds(data: Seq<u8>, sp: Span, v: SpecBencode) -> bool {
    spec_parse(data, sp.0 as nat, 1) matches Ok((w, q, _)) && w == v && q == sp.1 as nat
}

/// `spans` lists the keys of `root` in the same order, and each span
/// holds the value stored under its key.
pub open spec fn spans_match(
    data: Seq<u8>,
    root: Seq<(Seq<u8>, SpecBencode)>,
    spans: Seq<(Seq<u8>, Span)>,
) -> bool {
    &&& root.len() == spans.len()
    &&& forall|i: int|
        0 <= i < root.len() ==> #[trigger] root[i].0 == spans[i].0 && span_holds(
            data,
            spans[i].1,
            root[i].1,
        )
}

proof fn lemma_insert_both(
    data: Seq<u8>,
    root: Seq<(Seq<u8>, SpecBencode)>,
    spans: Seq<(Seq<u8>, Span)>,
    k: Seq<u8>,
    v: SpecBencode,
    sp: Span,
)
    requires
        spans_match(data, root, spans),
        span_holds(data, sp, v),
    ensures
        spans_match(data, dict_insert(root, k, v), dict_insert(spans, k, sp)),
    decreases root.len(),
{
    if root.len() > 0 {
        assert(root.last().0 == spans.last().0);
        let r0 = root.drop_last();
        let s0 = spans.drop_last();
        assert(spans_match(data, r0, s0)) by {
            assert forall|i: int| 0 <= i < r0.len() implies #[trigger] r0[i].0 == s0[i].0
                && span_holds(data, s0[i].1, r0[i].1) by {
                assert(root[i] == r0[i]);
                assert(spans[i] == s0[i]);
            }
        }
        lemma_insert_both(data, r0, s0, k, v, sp);
    }
}

proof fn lemma_span_entries_match(
    data: Seq<u8>,
    pos: nat,
    root: Seq<(Seq<u8>, SpecBencode)>,
    spans: Seq<(Seq<u8>, Span)>,
)
    requires
        data.len() <= usize::MAX,
        spans_match(data, root, spans),
    ensures
        spec_span_entries(data, pos, root, spans) matches Ok((rt, sp, _)) ==> spans_match(data, rt, sp),
    decreases data.len() - pos,
{
    if pos < data.len() && data[pos as int] != 101 {
        if let Ok((k, p1)) = spec_string(data, pos) {
            if p1 > pos {
                if let Ok((v, p2, o)) = spec_parse(data, p1, 1) {
                    if p1 < p2 <= data.len() {
                        let sp: Span = (p1 as usize, p2 as usize);
                        lemma_insert_both(data, root, spans, k, v, sp);
                        lemma_span_entries_match(
                            data,
                            p2,
                            dict_insert(root, k, v),
                            dict_insert(spans, k, sp),
                        );
                    }
                }
            }
        }
    }
}

proof fn lemma_span_entries_are_dict_entries(
    data: Seq<u8>,
    pos: nat,
    root: Seq<(Seq<u8>, SpecBencode)>,
    spans: Seq<(Seq<u8>, Span)>,
    ordered: bool,
)
    ensures
        spec_span_entries(data, pos, root, spans) matches Ok((rt, _, p)) ==> spec_dict_entries(
            data,
            pos,
            1,
            root,
            ordered,
        ) matches Ok((w, q, _)) && w == SpecBencode::Dict(rt) && q == p,
    decreases data.len() - pos,
{
    if pos < data.len() && data[pos as int] != 101 {
        if let Ok((k, p1)) = spec_string(data, pos) {
            if p1 > pos {
                if let Ok((v, p2, o)) = spec_parse(data, p1, 1) {
                    if p1 < p2 <= data.len() {
                        lemma_span_entries_are_dict_entries(
                            data,
                            p2,
                            dict_insert(root, k, v),
                            dict_insert(spans, k, (p1 as usize, p2 as usize)),
                            ordered && o && super::decoder::key_in_order(root, k),
                        );
                    }
                }
            }
        }
    }
}

/// The root that [`decode_dictionary_with_spans`] reports is the dictionary
/// that [`decode`] gives for the same bytes.
///
/// [`decode_dictionary_with_spans`]: super::decoder::decode_dictionary_with_spans
/// [`decode`]: super::decoder::decode
pub proof fn law_spans_root_is_decoded_root(data: Seq<u8>)
    ensures
        spec_decode_with_spans(data) matches Ok((root, _)) ==> spec_decode(data) == Ok::<
            SpecBencode,
            super::decoder::DecoderError,
        >(SpecBencode::Dict(root)),
{
    if let Ok((root, _)) = spec_decode_with_spans(data) {
        lemma_span_entries_are_dict_entries(data, 1, Seq::empty(), Seq::empty(), true);
    }
}

/// Each span of [`decode_dictionary_with_spans`] covers exactly the
/// encoding of the value under its key: the spans list the root's keys in
/// the same order, lie inside the input, and the bytes of each span,
/// decoded on their own, give back that value.
///
/// [`decode_dictionary_with_spans`]: super::decoder::decode_dictionary_with_spans
pub proof fn law_span_bytes_decode_to_value(data: Seq<u8>)
    requires
        data.len() <= usize::MAX,
    ensures
        spec_decode_with_spans(data) matches Ok((root, spans)) ==> {
            &&& root.len() == spans.len()
            &&& forall|i: int|
                0 <= i < root.len() ==> {
                    &&& #[trigger] spans[i].0 == root[i].0
                    &&& spans[i].1.0 < spans[i].1.1 <= data.len()
                    &&& spec_decode(data.subrange(spans[i].1.0 as int, spans[i].1.1 as int))
                        == Ok::<SpecBencode, super::decoder::DecoderError>(root[i].1)
                }
        },
{
    if let Ok((root, spans)) = spec_decode_with_spans(data) {
        lemma_span_entries_match(data, 1, Seq::empty(), Seq::empty());
        assert forall|i: int| 0 <= i < root.len() implies {
            &&& #[trigger] spans[i].0 == root[i].0
            &&& spans[i].1.0 < spans[i].1.1 <= data.len()
            &&& spec_decode(data.subrange(spans[i].1.0 as int, spans[i].1.1 as int))
                == Ok::<SpecBencode, super::decoder::DecoderError>(root[i].1)
        } by {
            assert(root[i].0 == spans[i].0);
            let a = spans[i].1.0 as nat;
            let b = spans[i].1.1 as nat;
            lemma_parse_advances(data, a, 1);
            lemma_parse_local(data, a, b, a, 1, 0);
        }
    }
}

/// Looking a key up in the spans and in the root finds the same entry:
/// the span of the value that the root holds under that key.
pub proof fn law_span_lookup_matches_root(data: Seq<u8>, key: Seq<u8>)
    requires
        data.len() <= usize::MAX,
    ensures
        spec_decode_with_spans(data) matches Ok((root, spans)) ==> match dict_get(spans, key) {
            Some((s, e)) => dict_get(root, key) matches Some(v) && s < e <= data.len() && spec_decode(
                data.subrange(s as int, e as int),
            ) == Ok::<SpecBencode, super::decoder::DecoderError>(v),
            None => dict_get(root, key) is None,
        },
{
    if let Ok((root, spans)) = spec_decode_with_spans(data) {
        law_span_bytes_decode_to_value(data);
        lemma_lookup_lockstep(data, root, spans, key);
    }
}

proof fn lemma_lookup_lockstep(
    data: Seq<u8>,
    root: Seq<(Seq<u8>, SpecBencode)>,
    spans: Seq<(Seq<u8>, Span)>,
    key: Seq<u8>,
)
    requires
        root.len() == spans.len(),
        forall|i: int|
            0 <= i < root.len() ==> {
                &&& #[trigger] spans[i].0 == root[i].0
                &&& spans[i].1.0 < spans[i].1.1 <= data.len()
                &&& spec_decode(data.subrange(spans[i].1.0 as int, spans[i].1.1 as int))
                    == Ok::<SpecBencode, super::decoder::DecoderError>(root[i].1)
            },
    ensures
        match dict_get(spans, key) {
            Some((s, e)) => dict_get(root, key) matches Some(v) && s < e <= data.len() && spec_decode(
                data.subrange(s as int, e as int),
            ) == Ok::<SpecBencode, super::decoder::DecoderError>(v),
            None => dict_get(root, key) is None,
        },
    decreases root.len(),
{
    if root.len() > 0 {
        assert(spans[0].0 == root[0].0);
        let r = root.drop_first();
        let sp = spans.drop_first();
        assert forall|i: int| 0 <= i < r.len() implies {
            &&& #[trigger] sp[i].0 == r[i].0
            &&& sp[i].1.0 < sp[i].1.1 <= data.len()
            &&& spec_decode(data.subrange(sp[i].1.0 as int, sp[i].1.1 as int))
                == Ok::<SpecBencode, super::decoder::DecoderError>(r[i].1)
        } by {
            assert(sp[i] == spans[i + 1] && r[i] == root[i + 1]);
        }
        lemma_lookup_lockstep(data, r, sp, key);
    }
}

proof fn lemma_dict_entries_are_span_entries(
    data: Seq<u8>,
    pos: nat,
    root: Seq<(Seq<u8>, SpecBencode)>,
    spans: Seq<(Seq<u8>, Span)>,
    ordered: bool,
)
    ensures
        spec_dict_entries(data, pos, 1, root, ordered) matches Ok((w, q, _)) ==> spec_span_entries(
            data,
            pos,
            root,
            spans,
        ) matches Ok((rt, _, p)) && w == SpecBencode::Dict(rt) && q == p,
    decreases data.len() - pos,
{
    if pos < data.len() && data[pos as int] != 101 {
        if let Ok((k, p1)) = spec_string(data, pos) {
            if p1 > pos {
                if let Ok((v, p2, o)) = spec_parse(data, p1, 1) {
                    if p1 < p2 <= data.len() {
                        lemma_dict_entries_are_span_entries(
                            data,
                            p2,
                            dict_insert(root, k, v),
                            dict_insert(spans, k, (p1 as usize, p2 as usize)),
                            ordered && o && super::decoder::key_in_order(root, k),
                        );
                    }
                }
            }
        }
    }
}

/// Every entry after an insertion is the inserted one or an earlier one.
pub proof fn lemma_dict_insert_members<V>(s: Seq<(Seq<u8>, V)>, k: Seq<u8>, v: V)
    ensures
        forall|i: int|
            0 <= i < dict_insert(s, k, v).len() ==> #[trigger] dict_insert(s, k, v)[i] == (k, v) || exists|j: int|
                0 <= j < s.len() && s[j] == dict_insert(s, k, v)[i],
    decreases s.len(),
{
    let r = dict_insert(s, k, v);
    if s.len() == 0 {
    } else if super::spec::lex_lt(s.last().0, k) || s.last().0 == k {
        assert forall|i: int| 0 <= i < r.len() implies #[trigger] r[i] == (k, v) || exists|j: int|
            0 <= j < s.len() && s[j] == r[i] by {
            if i < r.len() - 1 {
                assert(s[i] == r[i]);
            }
        }
    } else {
        let t = s.drop_last();
        lemma_dict_insert_members(t, k, v);
        let it = dict_insert(t, k, v);
        assert forall|i: int| 0 <= i < r.len() implies #[trigger] r[i] == (k, v) || exists|j: int|
            0 <= j < s.len() && s[j] == r[i] by {
            if i < it.len() {
                assert(r[i] == it[i]);
                if it[i] != (k, v) {
                    let j = choose|j: int| 0 <= j < t.len() && t[j] == it[i];
                    assert(s[j] == t[j]);
                }
            } else {
                assert(r[i] == s[s.len() - 1]);
            }
        }
    }
}

proof fn lemma_span_bounds(data: Seq<u8>, pos: nat, root: Seq<(Seq<u8>, SpecBencode)>, spans: Seq<(Seq<u8>, Span)>)
    requires
        data.len() <= usize::MAX,
        1 <= pos,
        forall|i: int| 0 <= i < spans.len() ==> 0 < #[trigger] spans[i].1.0 && spans[i].1.1 <= pos,
    ensures
        spec_span_entries(data, pos, root, spans) matches Ok((_, sp, p)) ==> forall|i: int|
            0 <= i < sp.len() ==> 0 < #[trigger] sp[i].1.0 && sp[i].1.1 < p,
    decreases data.len() - pos,
{
    if pos < data.len() && data[pos as int] != 101 {
        if let Ok((k, p1)) = spec_string(data, pos) {
            if p1 > pos {
                if let Ok((v, p2, o)) = spec_parse(data, p1, 1) {
                    if p1 < p2 <= data.len() {
                        let sp: Span = (p1 as usize, p2 as usize);
                        let ns = dict_insert(spans, k, sp);
                        lemma_dict_insert_members(spans, k, sp);
                        assert forall|i: int| 0 <= i < ns.len() implies 0 < #[trigger] ns[i].1.0 && ns[i].1.1
                            <= p2 by {
                            if ns[i] != (k, sp) {
                                let j = choose|j: int| 0 <= j < spans.len() && spans[j] == ns[i];
                                assert(0 < spans[j].1.0);
                            }
                        }
                        lemma_span_bounds(data, p2, dict_insert(root, k, v), ns);
                    }
                }
            }
        }
    } else if pos < data.len() {
        assert forall|i: int| 0 <= i < spans.len() implies 0 < #[trigger] spans[i].1.0 && spans[i].1.1 < pos + 1 by {
        }
    }
}

/// The span decoder succeeds exactly when the input decodes to a
/// dictionary, and every span lies strictly inside the input: after the
/// opening `d` and before the closing `e`.
pub proof fn law_spans_exactly_for_dictionaries(data: Seq<u8>)
    requires
        data.len() <= usize::MAX,
    ensures
        spec_decode_with_spans(data) is Ok <==> spec_decode(data) matches Ok(SpecBencode::Dict(_)),
        spec_decode_with_spans(data) matches Ok((_, spans)) ==> forall|i: int|
            0 <= i < spans.len() ==> 0 < #[trigger] spans[i].1.0 && spans[i].1.1 < data.len(),
{
    law_spans_root_is_decoded_root(data);
    if let Ok(SpecBencode::Dict(m)) = spec_decode(data) {
        lemma_parse_advances(data, 0, 0);
        let b = data[0];
        assert(b == 100) by {
            if super::decoder::is_digit(b) {
            } else if b == 105 {
            } else if b == 108 {
                assert(spec_parse(data, 0, 0) == super::decoder::spec_list(data, 0, 0));
                if 0 + 1 <= DEPTH_MAX {
                    lemma_list_is_list(data, 1, 1, Seq::empty(), true);
                }
            }
        }
        lemma_dict_entries_are_span_entries(data, 1, Seq::empty(), Seq::empty(), true);
    }
    lemma_span_bounds(data, 1, Seq::empty(), Seq::empty());
}

proof fn lemma_list_is_list(data: Seq<u8>, pos: nat, depth: nat, acc: Seq<SpecBencode>, ordered: bool)
    ensures
        spec_list_items(data, pos, depth, acc, ordered) matches Ok((v, _, _)) ==> v is List,
    decreases data.len() - pos,
{
    if pos < data.len() && data[pos as int] != 101 {
        if let Ok((v, p, o)) = spec_parse(data, pos, depth) {
            if pos < p <= data.len() {
                lemma_list_is_list(data, p, depth, acc.push(v), ordered && o);
            }
        }
    }
}

} // verus!
