//! How deeply decoded values nest: never more than [`DEPTH_MAX`]
//! containers, and input nested deeper is refused as too deep.

use vstd::prelude::*;

use super::cursor::{CursorError, DEPTH_MAX};
use super::decoder::{
    lemma_dict_entries_advances, lemma_list_items_advances, lemma_parse_advances, spec_decode, spec_dict_entries,
    spec_list_items, spec_parse, spec_string, DecoderError,
};
use super::spans::lemma_dict_insert_members;
use super::spec::{
    dict_insert, entries_height, height, items_height, lemma_entries_height, SpecBencode,
};

verus! {

/// `n` lists, each the only item of the one around it.
pub open spec fn nested(n: nat) -> SpecBencode
    decreases n,
{
    if n <= 1 {
        SpecBencode::List(Seq::empty())
    } else {
        SpecBencode::List(seq![nested((n - 1) as nat)])
    }
}

/// `n` list openings, then `n` closings.
pub open spec fn nest_bytes(n: nat) -> Seq<u8> {
    Seq::new(n, |i: int| 108u8) + Seq::new(n, |i: int| 101u8)
}

proof fn lemma_too_deep(data: Seq<u8>, k: nat)
    requires
        k <= DEPTH_MAX,
        DEPTH_MAX < data.len(),
        forall|j: int| k <= j <= DEPTH_MAX ==> #[trigger] data[j] == 108u8,
    ensures
        spec_parse(data, k, k) == Err::<(SpecBencode, nat, bool), DecoderError>(
            DecoderError::CursorError(CursorError::TooDeep),
        ),
    decreases DEPTH_MAX - k,
{
    assert(data[k as int] == 108u8);
    if k + 1 <= DEPTH_MAX {
        assert(data[(k + 1) as int] == 108u8);
        lemma_too_deep(data, k + 1);
    }
}

proof fn lemma_nested_parse(n: nat, k: nat)
    requires
        n <= DEPTH_MAX,
        k < n,
    ensures
        spec_parse(nest_bytes(n), k, k) == Ok::<(SpecBencode, nat, bool), DecoderError>(
            (nested((n - k) as nat), (2 * n - k) as nat, true),
        ),
    decreases n - k,
{
    let data = nest_bytes(n);
    assert(data[k as int] == 108u8);
    if k + 1 == n {
        assert(data[n as int] == 101u8);
        assert(spec_list_items(data, k + 1, k + 1, Seq::empty(), true) == Ok::<(SpecBencode, nat, bool), DecoderError>(
            (SpecBencode::List(Seq::empty()), n + 1, true),
        ));
    } else {
        assert(data[(k + 1) as int] == 108u8);
        lemma_nested_parse(n, k + 1);
        let e = (2 * n - k - 1) as nat;
        assert(data[e as int] == 101u8);
        let inner = nested((n - k - 1) as nat);
        assert(Seq::<SpecBencode>::empty().push(inner) =~= seq![inner]);
        assert(spec_list_items(data, e, k + 1, seq![inner], true) == Ok::<(SpecBencode, nat, bool), DecoderError>(
            (SpecBencode::List(seq![inner]), e + 1, true),
        ));
        assert(spec_list_items(data, k + 1, k + 1, Seq::empty(), true) == Ok::<(SpecBencode, nat, bool), DecoderError>(
            (SpecBencode::List(seq![inner]), e + 1, true),
        ));
    }
}

/// Lists nested up to [`DEPTH_MAX`] deep decode; one level more is refused
/// as too deep.
pub proof fn law_nesting_limit(n: nat)
    requires
        n >= 1,
    ensures
        n <= DEPTH_MAX ==> spec_decode(nest_bytes(n)) == Ok::<SpecBencode, DecoderError>(nested(n)),
        n > DEPTH_MAX ==> spec_decode(nest_bytes(n)) == Err::<SpecBencode, DecoderError>(
            DecoderError::CursorError(CursorError::TooDeep),
        ),
{
    if n <= DEPTH_MAX {
        lemma_nested_parse(n, 0);
    } else {
        let data = nest_bytes(n);
        assert forall|j: int| 0 <= j <= DEPTH_MAX implies #[trigger] data[j] == 108u8 by {}
        lemma_too_deep(data, 0);
    }
}

/// Input that opens more than [`DEPTH_MAX`] lists in a row is refused as
/// too deep, whatever follows.
pub proof fn law_too_many_openings(data: Seq<u8>)
    requires
        DEPTH_MAX < data.len(),
        forall|j: int| 0 <= j <= DEPTH_MAX ==> #[trigger] data[j] == 108u8,
    ensures
        spec_decode(data) == Err::<SpecBencode, DecoderError>(DecoderError::CursorError(CursorError::TooDeep)),
{
    lemma_too_deep(data, 0);
}

proof fn lemma_entries_height_le(s: Seq<(Seq<u8>, SpecBencode)>, h: nat)
    requires
        forall|i: int| 0 <= i < s.len() ==> height(#[trigger] s[i].1) <= h,
    ensures
        entries_height(s) <= h,
    decreases s.len(),
{
    if s.len() > 0 {
        let t = s.drop_last();
        assert forall|i: int| 0 <= i < t.len() implies height(#[trigger] t[i].1) <= h by {
            assert(t[i] == s[i]);
        }
        lemma_entries_height_le(t, h);
        assert(height(s[s.len() - 1].1) <= h);
    }
}

proof fn lemma_insert_height(s: Seq<(Seq<u8>, SpecBencode)>, k: Seq<u8>, v: SpecBencode, h: nat)
    requires
        entries_height(s) <= h,
        height(v) <= h,
    ensures
        entries_height(dict_insert(s, k, v)) <= h,
{
    let r = dict_insert(s, k, v);
    lemma_dict_insert_members(s, k, v);
    lemma_entries_height(s);
    assert forall|i: int| 0 <= i < r.len() implies height(#[trigger] r[i].1) <= h by {
        if r[i] != (k, v) {
            let j = choose|j: int| 0 <= j < s.len() && s[j] == r[i];
            assert(height(s[j].1) <= entries_height(s));
        }
    }
    lemma_entries_height_le(r, h);
}

proof fn lemma_parse_height(data: Seq<u8>, pos: nat, d: nat)
    requires
        d <= DEPTH_MAX,
    ensures
        spec_parse(data, pos, d) matches Ok((v, _, _)) ==> d + height(v) <= DEPTH_MAX,
    decreases data.len() - pos, 2nat,
{
    if pos < data.len() {
        let b = data[pos as int];
        if b == 100 && d + 1 <= DEPTH_MAX {
            lemma_entries_bound(data, pos + 1, d + 1, Seq::empty(), true);
        } else if b == 108 && d + 1 <= DEPTH_MAX {
            lemma_items_bound(data, pos + 1, d + 1, Seq::empty(), true);
        }
    }
}

proof fn lemma_items_bound(data: Seq<u8>, pos: nat, d: nat, acc: Seq<SpecBencode>, ordered: bool)
    requires
        1 <= d <= DEPTH_MAX,
        d + items_height(acc) <= DEPTH_MAX,
    ensures
        spec_list_items(data, pos, d, acc, ordered) matches Ok((v, _, _)) ==> (d - 1) + height(v) <= DEPTH_MAX,
    decreases data.len() - pos, 3nat,
{
    if pos < data.len() && data[pos as int] != 101 {
        if let Ok((v, p, o)) = spec_parse(data, pos, d) {
            if pos < p <= data.len() {
                lemma_parse_height(data, pos, d);
                assert(acc.push(v).drop_last() =~= acc);
                lemma_items_bound(data, p, d, acc.push(v), ordered && o);
            }
        }
    }
}

proof fn lemma_entries_bound(
    data: Seq<u8>,
    pos: nat,
    d: nat,
    acc: Seq<(Seq<u8>, SpecBencode)>,
    ordered: bool,
)
    requires
        1 <= d <= DEPTH_MAX,
        d + entries_height(acc) <= DEPTH_MAX,
    ensures
        spec_dict_entries(data, pos, d, acc, ordered) matches Ok((v, _, _)) ==> (d - 1) + height(v) <= DEPTH_MAX,
    decreases data.len() - pos, 3nat,
{
    if pos < data.len() && data[pos as int] != 101 {
        if let Ok((k, p1)) = spec_string(data, pos) {
            if p1 > pos {
                if let Ok((v, p2, o)) = spec_parse(data, p1, d) {
                    if p1 < p2 <= data.len() {
                        lemma_parse_height(data, p1, d);
                        lemma_insert_height(acc, k, v, (DEPTH_MAX - d) as nat);
                        lemma_entries_bound(
                            data,
                            p2,
                            d,
                            dict_insert(acc, k, v),
                            ordered && o && super::decoder::key_in_order(acc, k),
                        );
                    }
                }
            }
        }
    }
}

/// A decoded value never nests more than [`DEPTH_MAX`] containers deep,
/// whatever the input: the decoder refuses anything deeper.
pub proof fn law_decoded_depth_within_limit(data: Seq<u8>)
    ensures
        spec_decode(data) matches Ok(v) ==> height(v) <= DEPTH_MAX,
{
    lemma_parse_height(data, 0, 0);
}

} // verus!
