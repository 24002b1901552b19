//! A readable, indented rendering of [`Bencode`] values, for inspecting
//! decoded data.
//!
//! This is for reading, not for round-tripping: use
//! [`encode`](super::encoder::encode) to get bytes back. Byte strings that
//! are valid UTF-8 show as quoted text, cut short past
//! [`MAX_STRING_LEN`] bytes; anything else is summarised by its length, so
//! a torrent's `pieces` field does not flood the output.

use vstd::prelude::*;
use vstd::slice::slice_to_vec;
use vstd::string::StrSliceExecFns;
use vstd::utf8::{decode_utf8, valid_utf8};

use super::encoder::{int_text, nat_text};
use super::spec::{
    entries_height, height, items_height, lemma_entries_height, lemma_items_height, SpecBencode,
};
use super::value::{lemma_list_view, list_view, Bencode, Dictionary};
use crate::text::{
    ascii_chars, push_chars, push_decimal_chars, push_prefix, string_from_chars, string_from_utf8,
};

verus! {

/// Longest string, in bytes, shown in full before it is cut short.
pub const MAX_STRING_LEN: usize = 60;

/// The number of bytes UTF-8 takes for `c`.
pub open spec fn char_width(c: char) -> nat {
    if (c as u32) < 0x80 {
        1
    } else if (c as u32) < 0x800 {
        2
    } else if (c as u32) < 0x10000 {
        3
    } else {
        4
    }
}

/// The number of bytes UTF-8 takes for the text `t`.
pub open spec fn text_width(t: Seq<char>) -> nat
    decreases t.len(),
{
    if t.len() == 0 {
        0
    } else {
        text_width(t.drop_last()) + char_width(t.last())
    }
}

/// How many characters of a long text its shortened form keeps, counting
/// on from `k`: every character before the last one that starts within the
/// first [`MAX_STRING_LEN`] bytes.
pub open spec fn kept_from(t: Seq<char>, k: nat) -> nat
    decreases t.len() - k,
{
    if k + 1 < t.len() && text_width(t.take((k + 1) as int)) <= MAX_STRING_LEN {
        kept_from(t, k + 1)
    } else {
        k
    }
}

/// How a byte string reads: quoted text when it is valid UTF-8 (cut short,
/// with its full length, when longer than [`MAX_STRING_LEN`] bytes),
/// otherwise only its length.
pub open spec fn render_bytes(b: Seq<u8>) -> Seq<char> {
    if !valid_utf8(b) {
        seq!['<'] + ascii_chars(nat_text(b.len())) + seq![
            ' ',
            'b',
            'y',
            't',
            'e',
            's',
            ' ',
            'b',
            'i',
            'n',
            'a',
            'r',
            'y',
            '>',
        ]
    } else if b.len() <= MAX_STRING_LEN {
        seq!['"'] + decode_utf8(b) + seq!['"']
    } else {
        let t = decode_utf8(b);
        seq!['"'] + t.take(kept_from(t, 0) as int) + seq!['\u{2026}', '"', ' ', '('] + ascii_chars(
            nat_text(b.len()),
        ) + seq![' ', 'b', 'y', 't', 'e', 's', ')']
    }
}

/// How a value reads when its own line is indented by `ind`: integers in
/// decimal, byte strings by [`render_bytes`], and non-empty containers with
/// one element per line, each indented two spaces further and followed by
/// a comma.
pub open spec fn render(v: SpecBencode, ind: Seq<char>) -> Seq<char>
    decreases v,
{
    match v {
        SpecBencode::Int(n) => ascii_chars(int_text(n)),
        SpecBencode::Str(b) => render_bytes(b),
        SpecBencode::List(items) => if items.len() == 0 {
            seq!['[', ']']
        } else {
            seq!['[', '\n'] + render_items(items, ind + seq![' ', ' ']) + ind + seq![']']
        },
        SpecBencode::Dict(entries) => if entries.len() == 0 {
            seq!['{', '}']
        } else {
            seq!['{', '\n'] + render_entries(entries, ind + seq![' ', ' ']) + ind + seq!['}']
        },
    }
}

/// The lines of a list's items, each indented by `ind`.
pub open spec fn render_items(s: Seq<SpecBencode>, ind: Seq<char>) -> Seq<char>
    decreases s,
{
    if s.len() == 0 {
        Seq::empty()
    } else {
        render_items(s.drop_last(), ind) + ind + render(s.last(), ind) + seq![',', '\n']
    }
}

/// The lines of a dictionary's entries, each `key: value` indented by `ind`.
pub open spec fn render_entries(s: Seq<(Seq<u8>, SpecBencode)>, ind: Seq<char>) -> Seq<char>
    decreases s,
{
    if s.len() == 0 {
        Seq::empty()
    } else {
        render_entries(s.drop_last(), ind) + ind + render_bytes(s.last().0) + seq![':', ' ']
            + render(s.last().1, ind) + seq![',', '\n']
    }
}

/// The UTF-8 width of `c`, by its code point.
fn utf8_width(c: char) -> (w: usize)
    ensures
        w == char_width(c),
{
    let v = c as u32;
    if v < 0x80 {
        1
    } else if v < 0x800 {
        2
    } else if v < 0x10000 {
        3
    } else {
        4
    }
}

/// How many characters of `s` the shortened form keeps.
fn kept_chars(s: &str) -> (k: usize)
    ensures
        k == kept_from(s@, 0),
        k <= s@.len(),
{
    let n = s.unicode_len();
    let mut k: usize = 0;
    let mut w: usize = 0;
    assert(s@.take(0) =~= Seq::<char>::empty());
    while k + 1 < n
        invariant_except_break
            n == s@.len(),
            k < n || k == 0,
            w == text_width(s@.take(k as int)),
            w <= MAX_STRING_LEN,
            kept_from(s@, 0) == kept_from(s@, k as nat),
        ensures
            n == s@.len(),
            k <= n,
            kept_from(s@, 0) == k,
        decreases n - k,
    {
        let c = s.get_char(k);
        let cw = utf8_width(c);
        assert(s@.take(k + 1).drop_last() =~= s@.take(k as int));
        if w + cw > MAX_STRING_LEN {
            break;
        }
        w = w + cw;
        k = k + 1;
    }
    k
}

/// Append how a byte string reads.
fn write_bytes(bytes: &[u8], out: &mut Vec<char>)
    ensures
        final(out)@ == old(out)@ + render_bytes(bytes@),
{
    let ghost start = out@;
    let owned = slice_to_vec(bytes);
    match string_from_utf8(owned) {
        None => {
            out.push('<');
            push_decimal_chars(bytes.len() as u64, out);
            push_chars(
                out,
                &[' ', 'b', 'y', 't', 'e', 's', ' ', 'b', 'i', 'n', 'a', 'r', 'y', '>'],
            );
        },
        Some(text) => {
            let s = text.as_str();
            if bytes.len() <= MAX_STRING_LEN {
                out.push('"');
                let n = s.unicode_len();
                push_prefix(out, s, n);
                assert(s@.take(n as int) =~= s@);
                out.push('"');
            } else {
                let k = kept_chars(s);
                out.push('"');
                push_prefix(out, s, k);
                push_chars(out, &['\u{2026}', '"', ' ', '(']);
                push_decimal_chars(bytes.len() as u64, out);
                push_chars(out, &[' ', 'b', 'y', 't', 'e', 's', ')']);
            }
        },
    }
    assert(out@ =~= start + render_bytes(bytes@));
}

/// Append the decimal form of `number`.
fn write_integer(number: i64, out: &mut Vec<char>)
    ensures
        final(out)@ == old(out)@ + ascii_chars(int_text(number as int)),
{
    let ghost start = out@;
    if number < 0 {
        out.push('-');
        let magnitude: u64 = if number == i64::MIN {
            0x8000_0000_0000_0000
        } else {
            (-number) as u64
        };
        push_decimal_chars(magnitude, out);
    } else {
        push_decimal_chars(number as u64, out);
    }
    assert(out@ =~= start + ascii_chars(int_text(number as int)));
}

/// `ind` indented two spaces further.
fn deeper(ind: &Vec<char>) -> (r: Vec<char>)
    ensures
        r@ == ind@ + seq![' ', ' '],
{
    let mut r: Vec<char> = Vec::new();
    push_chars(&mut r, ind.as_slice());
    r.push(' ');
    r.push(' ');
    assert(r@ =~= ind@ + seq![' ', ' ']);
    r
}

/// Append how `value` reads, its own line indented by `ind`.
fn write_at(value: &Bencode, ind: &Vec<char>, out: &mut Vec<char>)
    ensures
        final(out)@ == old(out)@ + render(value@, ind@),
    decreases height(value@), 0nat,
{
    match value {
        Bencode::Integer(number) => write_integer(*number, out),
        Bencode::String(bytes) => write_bytes(bytes, out),
        Bencode::List(items) => write_list(items.as_slice(), ind, out),
        Bencode::Dictionary(entries) => write_dictionary(entries, ind, out),
    }
}

/// Append a list, one item per line.
fn write_list(items: &[Bencode], ind: &Vec<char>, out: &mut Vec<char>)
    ensures
        final(out)@ == old(out)@ + render(SpecBencode::List(list_view(items@)), ind@),
    decreases items_height(list_view(items@)), 1nat,
{
    let ghost start = out@;
    let ghost vs = list_view(items@);
    proof {
        lemma_list_view(items@);
        lemma_items_height(vs);
    }
    if items.len() == 0 {
        out.push('[');
        out.push(']');
        assert(out@ =~= start + render(SpecBencode::List(vs), ind@));
        return;
    }
    let inner = deeper(ind);
    out.push('[');
    out.push('\n');
    let mut i: usize = 0;
    while i < items.len()
        invariant
            i <= items@.len(),
            vs == list_view(items@),
            vs.len() == items@.len(),
            inner@ == ind@ + seq![' ', ' '],
            forall|j: int| 0 <= j < vs.len() ==> #[trigger] vs[j] == items@[j].view(),
            forall|j: int| 0 <= j < vs.len() ==> height(#[trigger] vs[j]) <= items_height(vs),
            out@ == start + seq!['[', '\n'] + render_items(vs.take(i as int), inner@),
        decreases items@.len() - i,
    {
        assert(height(items@[i as int]@) <= items_height(vs)) by {
            assert(vs[i as int] == items@[i as int]@);
        }
        push_chars(out, inner.as_slice());
        write_at(&items[i], &inner, out);
        out.push(',');
        out.push('\n');
        assert(vs.take(i + 1).drop_last() =~= vs.take(i as int));
        i = i + 1;
    }
    push_chars(out, ind.as_slice());
    out.push(']');
    assert(vs.take(i as int) =~= vs);
    assert(out@ =~= start + render(SpecBencode::List(vs), ind@));
}

/// Append a dictionary, one `key: value` entry per line.
fn write_dictionary(entries: &Dictionary, ind: &Vec<char>, out: &mut Vec<char>)
    ensures
        final(out)@ == old(out)@ + render(SpecBencode::Dict(entries@), ind@),
    decreases entries_height(entries@), 1nat,
{
    let ghost start = out@;
    let ghost es = entries@;
    proof {
        lemma_entries_height(es);
    }
    let n = entries.len();
    if n == 0 {
        out.push('{');
        out.push('}');
        assert(out@ =~= start + render(SpecBencode::Dict(es), ind@));
        return;
    }
    let inner = deeper(ind);
    out.push('{');
    out.push('\n');
    let mut i: usize = 0;
    while i < n
        invariant
            n == es.len(),
            es == entries@,
            i <= n,
            inner@ == ind@ + seq![' ', ' '],
            forall|j: int| 0 <= j < es.len() ==> height(#[trigger] es[j].1) <= entries_height(es),
            out@ == start + seq!['{', '\n'] + render_entries(es.take(i as int), inner@),
        decreases n - i,
    {
        let key = entries.key_at(i);
        let value = entries.value_at(i);
        push_chars(out, inner.as_slice());
        write_bytes(key, out);
        out.push(':');
        out.push(' ');
        write_at(value, &inner, out);
        out.push(',');
        out.push('\n');
        assert(es.take(i + 1).drop_last() =~= es.take(i as int));
        i = i + 1;
    }
    push_chars(out, ind.as_slice());
    out.push('}');
    assert(es.take(i as int) =~= es);
    assert(out@ =~= start + render(SpecBencode::Dict(es), ind@));
}

impl<'a> Bencode<'a> {
    /// Render as an indented tree, for reading.
    pub fn to_string(&self) -> (s: String)
        ensures
            s@ == render(self@, Seq::empty()),
    {
        let mut out: Vec<char> = Vec::new();
        let ind: Vec<char> = Vec::new();
        write_at(self, &ind, &mut out);
        assert(out@ =~= render(self@, Seq::empty()));
        string_from_chars(&out)
    }
}

} // verus!
