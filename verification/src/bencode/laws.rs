//! What holds of decoding and encoding together.
//!
//! Decoding the encoding of a value gives the value back, and encoding a
//! decoded value gives back the input whenever the input lists dictionary
//! keys in byte order: the round trip a torrent's identity depends on.

use vstd::prelude::*;

use super::cursor::DEPTH_MAX;
use super::decoder::{
    canonical, decimal_value, digit_run_end, is_digit, key_in_order, lemma_digit_run_end,
    lemma_parse_advances, lemma_run_end_exact, spec_decode, spec_digits, spec_dict,
    spec_dict_entries, spec_integer, spec_list, spec_list_items, spec_parse, spec_string,
};
use super::encoder::{
    digit_byte, encode_entries, encode_items, encode_str, int_text, nat_text, spec_encode,
};
use super::spec::{
    dict_insert, entries_height, height, items_height, keys_sorted, lemma_dict_insert_greatest,
    lemma_entries_height, lemma_items_height, lex_lt, SpecBencode,
};

verus! {

/// A value the exec types can hold: integers fit in 64 signed bits and
/// every dictionary's keys are strictly increasing.
pub open spec fn well_formed(v: SpecBencode) -> bool
    decreases v,
{
    match v {
        SpecBencode::Str(_) => true,
        SpecBencode::Int(n) => i64::MIN <= n <= i64::MAX,
        SpecBencode::List(items) => forall|i: int| 0 <= i < items.len() ==> well_formed(#[trigger] items[i]),
        SpecBencode::Dict(entries) => keys_sorted(entries) && forall|i: int|
            0 <= i < entries.len() ==> well_formed(#[trigger] entries[i].1),
    }
}

// ---------------------------------------------------------------------
// Decimal text.
// ---------------------------------------------------------------------

/// The decimal text of `n` is a non-empty run of digits with no leading
/// zero (unless it is `0` itself) that spells `n`.
pub proof fn lemma_nat_text(n: nat)
    ensures
        nat_text(n).len() >= 1,
        forall|i: int| 0 <= i < nat_text(n).len() ==> is_digit(#[trigger] nat_text(n)[i]),
        decimal_value(nat_text(n)) == n,
        nat_text(n).len() > 1 ==> nat_text(n)[0] != 48,
        n < 10 <==> nat_text(n).len() == 1,
    decreases n,
{
    let t = nat_text(n);
    if n >= 10 {
        lemma_nat_text(n / 10);
        assert(t.drop_last() =~= nat_text(n / 10));
        assert(t[0] == nat_text(n / 10)[0]);
        lemma_digit_byte(n % 10);
        assert(t.last() == digit_byte(n % 10));
        assert(decimal_value(t) == decimal_value(t.drop_last()) * 10 + (t.last() - 48) as nat);
        assert(n == (n / 10) * 10 + n % 10) by (nonlinear_arith);
    } else {
        lemma_digit_byte(n);
        assert(t.drop_last() =~= Seq::<u8>::empty());
        assert(decimal_value(t.drop_last()) == 0);
        assert(decimal_value(t) == decimal_value(t.drop_last()) * 10 + (t.last() - 48) as nat);
    }
}

proof fn lemma_digit_byte(d: nat)
    requires
        d < 10,
    ensures
        digit_byte(d) == d + 48,
        is_digit(digit_byte(d)),
        (digit_byte(d) - 48) as nat == d,
{
}

/// A run of digits with no leading zero is the decimal text of its value.
pub proof fn lemma_text_of_value(s: Seq<u8>)
    requires
        s.len() >= 1,
        forall|i: int| 0 <= i < s.len() ==> is_digit(#[trigger] s[i]),
        s.len() > 1 ==> s[0] != 48,
    ensures
        nat_text(decimal_value(s)) == s,
        s.len() > 1 ==> decimal_value(s) >= 10,
        s.len() == 1 ==> decimal_value(s) < 10,
    decreases s.len(),
{
    let d = (s.last() - 48) as nat;
    assert(is_digit(s.last()));
    assert(d < 10);
    assert(digit_byte(d) == s.last());
    if s.len() == 1 {
        assert(s.drop_last() =~= Seq::<u8>::empty());
        assert(decimal_value(s.drop_last()) == 0);
        assert(decimal_value(s) == decimal_value(s.drop_last()) * 10 + d);
        assert(decimal_value(s) == d);
        assert(nat_text(decimal_value(s)) =~= s);
    } else {
        let t = s.drop_last();
        assert(t[0] == s[0]);
        lemma_text_of_value(t);
        if t.len() == 1 {
            assert(s[0] != 48);
            assert(decimal_value(t) >= 1);
        }
        let a = decimal_value(t);
        let v = decimal_value(s);
        assert(v == a * 10 + d);
        assert(v / 10 == a && v % 10 == d) by (nonlinear_arith)
            requires
                v == a * 10 + d,
                d < 10,
        ;
        assert(v >= 10) by (nonlinear_arith)
            requires
                v == a * 10 + d,
                a >= 1,
        ;
        assert(nat_text(v) =~= s);
    }
}

/// Reading the digits of `n`'s text followed by `stop` gives `n`.
proof fn lemma_digits_of_text(data: Seq<u8>, pos: nat, n: nat, stop: u8)
    requires
        !is_digit(stop),
        n <= u64::MAX,
        pos + nat_text(n).len() < data.len(),
        data.subrange(pos as int, (pos + nat_text(n).len()) as int) == nat_text(n),
        data[(pos + nat_text(n).len()) as int] == stop,
    ensures
        spec_digits(data, pos, stop) == Ok::<(nat, nat), super::decoder::DecoderError>(
            (n, pos + nat_text(n).len() + 1),
        ),
{
    let t = nat_text(n);
    lemma_nat_text(n);
    let end = pos + t.len();
    assert forall|i: int| pos <= i < end implies is_digit(#[trigger] data[i]) by {
        assert(data[i] == t[i - pos]);
    }
    lemma_run_end_exact(data, pos, end);
    assert(data[pos as int] == t[0]);
}

// ---------------------------------------------------------------------
// Front decomposition of the encodings of sequences.
// ---------------------------------------------------------------------

proof fn lemma_encode_items_front(s: Seq<SpecBencode>)
    requires
        s.len() > 0,
    ensures
        encode_items(s) == spec_encode(s[0]) + encode_items(s.drop_first()),
    decreases s.len(),
{
    if s.len() == 1 {
        assert(s.drop_last() =~= Seq::<SpecBencode>::empty());
        assert(s.drop_first() =~= Seq::<SpecBencode>::empty());
        assert(encode_items(s) =~= spec_encode(s[0]) + encode_items(s.drop_first()));
    } else {
        lemma_encode_items_front(s.drop_last());
        assert(s.drop_last().drop_first() =~= s.drop_first().drop_last());
        assert(s.drop_first().last() == s.last());
        assert(encode_items(s) =~= spec_encode(s[0]) + encode_items(s.drop_first()));
    }
}

proof fn lemma_encode_entries_front(s: Seq<(Seq<u8>, SpecBencode)>)
    requires
        s.len() > 0,
    ensures
        encode_entries(s) == encode_str(s[0].0) + spec_encode(s[0].1) + encode_entries(s.drop_first()),
    decreases s.len(),
{
    if s.len() == 1 {
        assert(s.drop_last() =~= Seq::<(Seq<u8>, SpecBencode)>::empty());
        assert(s.drop_first() =~= Seq::<(Seq<u8>, SpecBencode)>::empty());
        assert(encode_entries(s) =~= encode_str(s[0].0) + spec_encode(s[0].1) + encode_entries(
            s.drop_first(),
        ));
    } else {
        lemma_encode_entries_front(s.drop_last());
        assert(s.drop_last().drop_first() =~= s.drop_first().drop_last());
        assert(s.drop_first().last() == s.last());
        assert(encode_entries(s) =~= encode_str(s[0].0) + spec_encode(s[0].1) + encode_entries(
            s.drop_first(),
        ));
    }
}


/// A window of `data` that equals `e` also equals it piecewise.
proof fn lemma_window(data: Seq<u8>, pos: int, e: Seq<u8>, a: int, b: int)
    requires
        0 <= pos,
        pos + e.len() <= data.len(),
        data.subrange(pos as int, pos + e.len()) == e,
        0 <= a <= b <= e.len(),
    ensures
        data.subrange(pos + a, pos + b) == e.subrange(a, b),
        forall|i: int| a <= i < b ==> data[pos + i] == #[trigger] e[i],
{
    assert forall|i: int| a <= i < b implies data[pos + i] == #[trigger] e[i] by {
        assert(data.subrange(pos as int, pos + e.len())[i] == data[pos + i]);
    }
    assert(data.subrange(pos + a, pos + b) =~= e.subrange(a, b));
}

/// Every encoding is non-empty and starts with a byte that opens a value.
proof fn lemma_encode_first_byte(v: SpecBencode)
    ensures
        spec_encode(v).len() >= 1,
        is_digit(spec_encode(v)[0]) || spec_encode(v)[0] == 105 || spec_encode(v)[0] == 100
            || spec_encode(v)[0] == 108,
        spec_encode(v)[0] != 101,
{
    match v {
        SpecBencode::Str(b) => {
            lemma_nat_text(b.len());
        },
        _ => {},
    }
}

/// A byte string's encoding at `pos` reads back as that string.
proof fn lemma_string_encoded(data: Seq<u8>, pos: int, b: Seq<u8>)
    requires
        0 <= pos,
        data.len() <= usize::MAX,
        pos + encode_str(b).len() <= data.len(),
        data.subrange(pos as int, pos + encode_str(b).len()) == encode_str(b),
    ensures
        spec_string(data, pos as nat) == Ok::<(Seq<u8>, nat), super::decoder::DecoderError>(
            (b, (pos + encode_str(b).len()) as nat),
        ),
        is_digit(data[pos]),
{
    let e = encode_str(b);
    let t = nat_text(b.len());
    lemma_nat_text(b.len());
    lemma_window(data, pos, e, 0, t.len() as int);
    lemma_window(data, pos, e, 0, e.len() as int);
    assert(e.subrange(0, t.len() as int) =~= t);
    assert(e[t.len() as int] == 58u8);
    assert(data[pos + t.len()] == 58u8);
    lemma_digits_of_text(data, pos as nat, b.len(), 58);
    lemma_window(data, pos, e, t.len() as int + 1, e.len() as int);
    assert(e.subrange(t.len() as int + 1, e.len() as int) =~= b);
    assert(e[0] == t[0]);
}

/// Decoding from `pos` where the encoding of a well-formed value sits
/// reads exactly that value, consuming exactly its encoding.
proof fn lemma_parse_encoded(data: Seq<u8>, pos: int, depth: nat, v: SpecBencode)
    requires
        0 <= pos,
        well_formed(v),
        depth + height(v) <= DEPTH_MAX,
        data.len() <= usize::MAX,
        pos + spec_encode(v).len() <= data.len(),
        data.subrange(pos as int, pos + spec_encode(v).len()) == spec_encode(v),
    ensures
        spec_parse(data, pos as nat, depth) == Ok::<(SpecBencode, nat, bool), super::decoder::DecoderError>(
            (v, (pos + spec_encode(v).len()) as nat, true),
        ),
    decreases v,
{
    let e = spec_encode(v);
    lemma_window(data, pos, e, 0, e.len() as int);
    match v {
        SpecBencode::Str(b) => {
            lemma_string_encoded(data, pos, b);
        },
        SpecBencode::Int(n) => {
            let m: nat = if n < 0 { (-n) as nat } else { n as nat };
            let t = nat_text(m);
            lemma_nat_text(m);
            let q: int = if n < 0 { pos + 2 } else { pos + 1 };
            assert(e[0] == 105u8);
            assert(data[pos] == 105u8);
            if n < 0 {
                assert(e[1] == 45u8);
                assert(e.subrange(2, 2 + t.len() as int) =~= t);
                lemma_window(data, pos, e, 2, 2 + t.len() as int);
                assert(e[2 + t.len() as int] == 101u8);
            } else {
                assert(e[1] == t[0]);
                assert(e.subrange(1, 1 + t.len() as int) =~= t);
                lemma_window(data, pos, e, 1, 1 + t.len() as int);
                assert(e[1 + t.len() as int] == 101u8);
            }
            assert(data[q + t.len()] == 101u8);
            lemma_digits_of_text(data, q as nat, m, 101);
        },
        SpecBencode::List(items) => {
            assert(e[0] == 108u8);
            assert(data[pos] == 108u8);
            lemma_items_height(items);
            let ei = encode_items(items);
            assert(e.subrange(1, 1 + ei.len() as int) =~= ei);
            lemma_window(data, pos, e, 1, 1 + ei.len() as int);
            assert(e[1 + ei.len() as int] == 101u8);
            lemma_items_encoded(data, pos + 1, depth + 1, Seq::empty(), items);
            assert(Seq::<SpecBencode>::empty() + items =~= items);
        },
        SpecBencode::Dict(entries) => {
            assert(e[0] == 100u8);
            assert(data[pos] == 100u8);
            lemma_entries_height(entries);
            let ee = encode_entries(entries);
            assert(e.subrange(1, 1 + ee.len() as int) =~= ee);
            lemma_window(data, pos, e, 1, 1 + ee.len() as int);
            assert(e[1 + ee.len() as int] == 101u8);
            assert(Seq::<(Seq<u8>, SpecBencode)>::empty() + entries =~= entries);
            lemma_entries_encoded(data, pos + 1, depth + 1, Seq::empty(), entries);
        },
    }
}

/// The encodings of `rest` followed by `e` read back as the rest of a list.
proof fn lemma_items_encoded(
    data: Seq<u8>,
    pos: int,
    depth: nat,
    acc: Seq<SpecBencode>,
    rest: Seq<SpecBencode>,
)
    requires
        0 <= pos,
        forall|i: int| 0 <= i < rest.len() ==> well_formed(#[trigger] rest[i]),
        forall|i: int| 0 <= i < rest.len() ==> depth + height(#[trigger] rest[i]) <= DEPTH_MAX,
        data.len() <= usize::MAX,
        pos + encode_items(rest).len() < data.len(),
        data.subrange(pos as int, pos + encode_items(rest).len()) == encode_items(rest),
        data[pos + encode_items(rest).len()] == 101u8,
    ensures
        spec_list_items(data, pos as nat, depth, acc, true) == Ok::<
            (SpecBencode, nat, bool),
            super::decoder::DecoderError,
        >((SpecBencode::List(acc + rest), (pos + encode_items(rest).len() + 1) as nat, true)),
    decreases rest,
{
    if rest.len() == 0 {
        assert(acc + rest =~= acc);
    } else {
        lemma_encode_items_front(rest);
        let v0 = rest[0];
        let e0 = spec_encode(v0);
        let tail = rest.drop_first();
        let et = encode_items(tail);
        let ei = encode_items(rest);
        lemma_encode_first_byte(v0);
        lemma_window(data, pos, ei, 0, e0.len() as int);
        assert(ei.subrange(0, e0.len() as int) =~= e0);
        assert(data[pos] == e0[0]);
        lemma_parse_encoded(data, pos, depth, v0);
        lemma_window(data, pos, ei, e0.len() as int, ei.len() as int);
        assert(ei.subrange(e0.len() as int, ei.len() as int) =~= et);
        assert forall|i: int| 0 <= i < tail.len() implies well_formed(#[trigger] tail[i]) && depth
            + height(tail[i]) <= DEPTH_MAX by {
            assert(tail[i] == rest[i + 1]);
        }
        lemma_items_encoded(data, pos + e0.len(), depth, acc.push(v0), tail);
        assert(acc.push(v0) + tail =~= acc + rest);
    }
}

/// The entries of `rest` followed by `e` read back as the rest of a
/// dictionary whose keys arrive in increasing order.
proof fn lemma_entries_encoded(
    data: Seq<u8>,
    pos: int,
    depth: nat,
    acc: Seq<(Seq<u8>, SpecBencode)>,
    rest: Seq<(Seq<u8>, SpecBencode)>,
)
    requires
        0 <= pos,
        keys_sorted(acc + rest),
        forall|i: int| 0 <= i < rest.len() ==> well_formed(#[trigger] rest[i].1),
        forall|i: int| 0 <= i < rest.len() ==> depth + height(#[trigger] rest[i].1) <= DEPTH_MAX,
        data.len() <= usize::MAX,
        pos + encode_entries(rest).len() < data.len(),
        data.subrange(pos as int, pos + encode_entries(rest).len()) == encode_entries(rest),
        data[pos + encode_entries(rest).len()] == 101u8,
    ensures
        spec_dict_entries(data, pos as nat, depth, acc, true) == Ok::<
            (SpecBencode, nat, bool),
            super::decoder::DecoderError,
        >((SpecBencode::Dict(acc + rest), (pos + encode_entries(rest).len() + 1) as nat, true)),
    decreases rest,
{
    if rest.len() == 0 {
        assert(acc + rest =~= acc);
    } else {
        lemma_encode_entries_front(rest);
        let (k0, v0) = rest[0];
        let ek = encode_str(k0);
        let e0 = spec_encode(v0);
        let tail = rest.drop_first();
        let et = encode_entries(tail);
        let ee = encode_entries(rest);
        lemma_window(data, pos, ee, 0, ek.len() as int);
        assert(ee.subrange(0, ek.len() as int) =~= ek);
        lemma_string_encoded(data, pos, k0);
        assert(data[pos] != 101u8);
        let p1 = pos + ek.len();
        lemma_window(data, pos, ee, ek.len() as int, ek.len() as int + e0.len());
        assert(ee.subrange(ek.len() as int, ek.len() as int + e0.len()) =~= e0);
        lemma_encode_first_byte(v0);
        lemma_parse_encoded(data, p1, depth, v0);
        let p2 = p1 + e0.len();
        assert(key_in_order(acc, k0)) by {
            if acc.len() > 0 {
                let all = acc + rest;
                assert(all[acc.len() - 1] == acc.last());
                assert(all[acc.len() as int] == rest[0]);
            }
        }
        lemma_dict_insert_greatest(acc, k0, v0);
        lemma_window(data, pos, ee, ek.len() as int + e0.len(), ee.len() as int);
        assert(ee.subrange(ek.len() as int + e0.len(), ee.len() as int) =~= et);
        assert forall|i: int| 0 <= i < tail.len() implies well_formed(#[trigger] tail[i].1) && depth
            + height(tail[i].1) <= DEPTH_MAX by {
            assert(tail[i] == rest[i + 1]);
        }
        assert(acc.push((k0, v0)) + tail =~= acc + rest);
        lemma_entries_encoded(data, p2, depth, acc.push((k0, v0)), tail);
    }
}

/// Decoding the encoding of a value gives the value back, and that
/// encoding is canonical.
///
/// Holds of every value the exec types can hold (64-bit integers, sorted
/// keys) whose nesting is within the decoder's depth limit and whose
/// encoding fits in memory. `Bencode::check_well_formed` establishes the
/// first condition for any value built in code.
pub proof fn law_decode_inverts_encode(v: SpecBencode)
    requires
        well_formed(v),
        height(v) <= DEPTH_MAX,
        spec_encode(v).len() <= usize::MAX,
    ensures
        spec_decode(spec_encode(v)) == Ok::<SpecBencode, super::decoder::DecoderError>(v),
        canonical(spec_encode(v)),
{
    let e = spec_encode(v);
    assert(e.subrange(0, e.len() as int) =~= e);
    lemma_parse_encoded(e, 0, 0, v);
}


// ---------------------------------------------------------------------
// Encoding after decoding.
// ---------------------------------------------------------------------

/// The digits read by a successful `spec_digits` are the decimal text of
/// the number read, followed by `stop`.
proof fn lemma_digits_are_text(data: Seq<u8>, q: nat, stop: u8)
    requires
        spec_digits(data, q, stop) is Ok,
    ensures
        ({
            let (m, r) = spec_digits(data, q, stop)->Ok_0;
            &&& q + 2 <= r <= data.len()
            &&& data.subrange(q as int, r - 1) == nat_text(m)
            &&& data[r - 1] == stop
        }),
{
    lemma_digit_run_end(data, q);
    let end = digit_run_end(data, q);
    let run = data.subrange(q as int, end as int);
    assert forall|i: int| 0 <= i < run.len() implies is_digit(#[trigger] run[i]) by {
        assert(run[i] == data[q + i]);
    }
    lemma_text_of_value(run);
}

/// A canonically read value's bytes are exactly its encoding.
proof fn lemma_parse_canonical(data: Seq<u8>, pos: nat, depth: nat)
    ensures
        spec_parse(data, pos, depth) matches Ok((v, p, o)) ==> (o ==> pos <= p <= data.len()
            && data.subrange(pos as int, p as int) == spec_encode(v)),
    decreases data.len() - pos, 2nat,
{
    if let Ok((v, p, o)) = spec_parse(data, pos, depth) {
        if o {
            let b = data[pos as int];
            if is_digit(b) {
                lemma_digits_are_text(data, pos, 58);
                let (n, q) = spec_digits(data, pos, 58)->Ok_0;
                let s = data.subrange(q as int, q as int + n);
                assert(data.subrange(pos as int, p as int) =~= nat_text(n) + seq![58u8] + s);
            } else if b == 105 {
                let negative = data[pos as int + 1] == 45;
                let q: nat = if negative { pos + 2 } else { pos + 1 };
                lemma_digits_are_text(data, q, 101);
                let (m, r) = spec_digits(data, q, 101)->Ok_0;
                if negative {
                    assert(data.subrange(pos as int, p as int) =~= seq![105u8] + (seq![45u8] + nat_text(m)) + seq![101u8]);
                } else {
                    assert(data.subrange(pos as int, p as int) =~= seq![105u8] + nat_text(m) + seq![101u8]);
                }
            } else if b == 100 {
                lemma_dict_canonical(data, pos + 1, depth + 1, Seq::empty(), true);
                let r = v->Dict_0;
                assert(r.skip(0) =~= r);
                assert(data.subrange(pos as int, p as int) =~= seq![100u8] + data.subrange(pos as int + 1, p as int));
            } else if b == 108 {
                lemma_list_canonical(data, pos + 1, depth + 1, Seq::empty(), true);
                let r = v->List_0;
                assert(r.skip(0) =~= r);
                assert(data.subrange(pos as int, p as int) =~= seq![108u8] + data.subrange(pos as int + 1, p as int));
            }
        }
    }
}

proof fn lemma_list_canonical(
    data: Seq<u8>,
    pos: nat,
    depth: nat,
    acc: Seq<SpecBencode>,
    ordered: bool,
)
    ensures
        spec_list_items(data, pos, depth, acc, ordered) matches Ok((v, p, o)) ==> o ==> {
            &&& ordered
            &&& pos < p <= data.len()
            &&& v matches SpecBencode::List(r) && r.len() >= acc.len() && r.take(acc.len() as int) == acc
                && data.subrange(pos as int, p as int) == encode_items(r.skip(acc.len() as int)) + seq![101u8]
        },
    decreases data.len() - pos, 3nat,
{
    if let Ok((v, p, o)) = spec_list_items(data, pos, depth, acc, ordered) {
        if o {
            if data[pos as int] == 101 {
                let r = v->List_0;
                assert(r.skip(acc.len() as int) =~= Seq::<SpecBencode>::empty());
                assert(r.take(acc.len() as int) =~= acc);
                assert(data.subrange(pos as int, p as int) =~= seq![101u8]);
            } else {
                let (v0, p0, o0) = spec_parse(data, pos, depth)->Ok_0;
                lemma_parse_canonical(data, pos, depth);
                lemma_list_canonical(data, p0, depth, acc.push(v0), ordered && o0);
                let r = v->List_0;
                let k = acc.len() as int;
                assert(r.take(k + 1).take(k) =~= r.take(k));
                assert(r.take(k) =~= acc);
                assert(r[k] == acc.push(v0)[k]);
                let rest = r.skip(k);
                assert(rest.drop_first() =~= r.skip(k + 1));
                lemma_encode_items_front(rest);
                assert(data.subrange(pos as int, p as int) =~= data.subrange(pos as int, p0 as int)
                    + data.subrange(p0 as int, p as int));
            }
        }
    }
}

proof fn lemma_dict_canonical(
    data: Seq<u8>,
    pos: nat,
    depth: nat,
    acc: Seq<(Seq<u8>, SpecBencode)>,
    ordered: bool,
)
    ensures
        spec_dict_entries(data, pos, depth, acc, ordered) matches Ok((v, p, o)) ==> o ==> {
            &&& ordered
            &&& pos < p <= data.len()
            &&& v matches SpecBencode::Dict(r) && r.len() >= acc.len() && r.take(acc.len() as int) == acc
                && data.subrange(pos as int, p as int) == encode_entries(r.skip(acc.len() as int))
                + seq![101u8]
        },
    decreases data.len() - pos, 3nat,
{
    if let Ok((v, p, o)) = spec_dict_entries(data, pos, depth, acc, ordered) {
        if o {
            if data[pos as int] == 101 {
                let r = v->Dict_0;
                assert(r.skip(acc.len() as int) =~= Seq::<(Seq<u8>, SpecBencode)>::empty());
                assert(r.take(acc.len() as int) =~= acc);
                assert(data.subrange(pos as int, p as int) =~= seq![101u8]);
            } else {
                let (k0, p1) = spec_string(data, pos)->Ok_0;
                let (v0, p2, o0) = spec_parse(data, p1, depth)->Ok_0;
                lemma_digits_are_text(data, pos, 58);
                let (n, q) = spec_digits(data, pos, 58)->Ok_0;
                assert(data.subrange(pos as int, p1 as int) =~= encode_str(k0));
                lemma_parse_canonical(data, p1, depth);
                let ord2 = ordered && o0 && key_in_order(acc, k0);
                lemma_dict_canonical(data, p2, depth, dict_insert(acc, k0, v0), ord2);
                lemma_dict_insert_greatest(acc, k0, v0);
                let r = v->Dict_0;
                let k = acc.len() as int;
                assert(r.take(k + 1).take(k) =~= r.take(k));
                assert(r.take(k) =~= acc);
                assert(r[k] == acc.push((k0, v0))[k]);
                let rest = r.skip(k);
                assert(rest.drop_first() =~= r.skip(k + 1));
                lemma_encode_entries_front(rest);
                assert(data.subrange(pos as int, p as int) =~= data.subrange(pos as int, p1 as int)
                    + data.subrange(p1 as int, p2 as int) + data.subrange(p2 as int, p as int));
            }
        }
    }
}

/// Encoding a decoded value gives back the input, whenever the input is
/// canonical: every dictionary lists its keys in strictly increasing byte
/// order (decoding already rejects every other non-canonical spelling).
pub proof fn law_encode_inverts_canonical_decode(data: Seq<u8>)
    requires
        canonical(data),
    ensures
        spec_decode(data) is Ok,
        spec_encode(spec_decode(data)->Ok_0) == data,
{
    lemma_parse_canonical(data, 0, 0);
    assert(data.subrange(0, data.len() as int) =~= data);
}

/// How scalars are written: an integer as `i`, a `-` exactly when it is
/// negative, the decimal digits of its magnitude with no leading zero, and
/// `e`; a byte string as the decimal digits of its length, `:`, and the
/// bytes themselves.
pub proof fn law_scalar_encodings(n: int, b: Seq<u8>)
    ensures
        ({
            let e = spec_encode(SpecBencode::Int(n));
            let body = e.subrange(1, e.len() - 1);
            let digits = if n < 0 { body.drop_first() } else { body };
            let magnitude = if n < 0 { -n } else { n };
            &&& e.len() >= 3 && e[0] == 105u8 && e[e.len() - 1] == 101u8
            &&& (body[0] == 45u8) == (n < 0)
            &&& digits.len() >= 1
            &&& forall|i: int| 0 <= i < digits.len() ==> is_digit(#[trigger] digits[i])
            &&& decimal_value(digits) == magnitude
            &&& digits.len() > 1 ==> digits[0] != 48u8
        }),
        ({
            let e = spec_encode(SpecBencode::Str(b));
            let k = e.len() - b.len() - 1;
            let digits = e.take(k);
            &&& k >= 1
            &&& e[k] == 58u8
            &&& e.skip(k + 1) == b
            &&& forall|i: int| 0 <= i < digits.len() ==> is_digit(#[trigger] digits[i])
            &&& decimal_value(digits) == b.len()
        }),
{
    let e = spec_encode(SpecBencode::Int(n));
    let m: nat = if n < 0 { (-n) as nat } else { n as nat };
    lemma_nat_text(m);
    let t = nat_text(m);
    if n < 0 {
        assert(e.subrange(1, e.len() - 1) =~= seq![45u8] + t);
        assert((seq![45u8] + t).drop_first() =~= t);
    } else {
        assert(e.subrange(1, e.len() - 1) =~= t);
        assert(t[0] != 45u8) by {
            assert(is_digit(t[0]));
        }
    }
    let es = spec_encode(SpecBencode::Str(b));
    lemma_nat_text(b.len());
    let ts = nat_text(b.len());
    assert(es.take(ts.len() as int) =~= ts);
    assert(es.skip(ts.len() as int + 1) =~= b);
}

} // verus!
