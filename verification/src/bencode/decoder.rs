//! Decoding bencode into [`Bencode`] values.
//!
//! Decoding is strict, because torrent identity depends on exact bytes:
//! leading zeros (`i03e`), negative zero (`i-0e`), empty numbers (`ie`) and
//! trailing data after the top-level value are rejected. Every function here
//! is safe to point at bytes from a stranger: malformed input returns an
//! error and nesting is depth-limited.

use vstd::prelude::*;

use super::cursor::{Cursor, CursorError, DEPTH_MAX};
use super::spec::{
    dict_get, dict_insert, keys_sorted, lemma_dict_insert_sorted, lemma_lex_trichotomy, lex_lt,
    SpecBencode,
};
use super::value::{bytes_eq, bytes_lt, list_view, Bencode, Dictionary};

verus! {

/// Something went wrong while decoding bencode.
#[derive(Debug)]
pub enum DecoderError {
    /// The top-level value ended, but bytes remained after it.
    TrailingData,
    /// A value started with a byte that begins no bencode type.
    UnknownType(char),
    /// A number had no digits at all.
    EmptyNumber,
    /// A non-digit byte appeared where a digit was expected.
    UnexpectedNumber { got: u8 },
    /// A number began with `0` and continued, as in `i03e`.
    LeadingZero,
    /// The number `i-0e`, which bencode does not allow.
    NegativeZero,
    /// A number was too large to represent.
    NumberOverflow,
    /// The input ended early, was nested too deeply, or a marker byte was
    /// not what the format required.
    CursorError(CursorError),
}

// ---------------------------------------------------------------------
// The grammar, as spec functions over the input and a position in it.
// ---------------------------------------------------------------------

/// An ASCII decimal digit.
pub open spec fn is_digit(b: u8) -> bool {
    48 <= b <= 57
}

/// The index of the first byte at or after `pos` that is not a digit (or
/// the end of the input).
pub open spec fn digit_run_end(data: Seq<u8>, pos: nat) -> nat
    decreases data.len() - pos,
{
    if pos < data.len() && is_digit(data[pos as int]) {
        digit_run_end(data, pos + 1)
    } else {
        pos
    }
}

/// The number that a run of ASCII digits spells.
pub open spec fn decimal_value(s: Seq<u8>) -> nat
    decreases s.len(),
{
    if s.len() == 0 {
        0
    } else {
        decimal_value(s.drop_last()) * 10 + (s.last() - 48) as nat
    }
}

/// Read digits from `pos` up to the byte `stop`: the number and the
/// position after `stop`, or the error the decoder reports.
///
/// A number too large for 64 bits is refused as soon as its digits say so;
/// otherwise the run must end at `stop`, be non-empty, and have no leading
/// zero unless it is a bare `0`.
pub open spec fn spec_digits(data: Seq<u8>, pos: nat, stop: u8) -> Result<(nat, nat), DecoderError> {
    let end = digit_run_end(data, pos);
    let value = if end > pos { decimal_value(data.subrange(pos as int, end as int)) } else { 0 };
    if value > u64::MAX {
        Err(DecoderError::NumberOverflow)
    } else if end >= data.len() {
        Err(DecoderError::CursorError(CursorError::Eof))
    } else if data[end as int] != stop {
        Err(DecoderError::UnexpectedNumber { got: data[end as int] })
    } else if end == pos {
        Err(DecoderError::EmptyNumber)
    } else if end > pos + 1 && data[pos as int] == 48 {
        Err(DecoderError::LeadingZero)
    } else {
        Ok((value, end + 1))
    }
}

/// A byte string at `pos`: length digits, `:`, then that many bytes.
pub open spec fn spec_string(data: Seq<u8>, pos: nat) -> Result<(Seq<u8>, nat), DecoderError> {
    match spec_digits(data, pos, 58) {
        Err(e) => Err(e),
        Ok((n, p)) => if p + n > usize::MAX {
            Err(DecoderError::CursorError(CursorError::Overflow))
        } else if p + n > data.len() {
            Err(DecoderError::CursorError(CursorError::Eof))
        } else {
            Ok((data.subrange(p as int, (p + n) as int), p + n))
        },
    }
}

/// An integer at `pos` (whose byte is `i`): optional `-`, digits, `e`.
pub open spec fn spec_integer(data: Seq<u8>, pos: nat) -> Result<(SpecBencode, nat), DecoderError> {
    let p = pos + 1;
    if p >= data.len() {
        Err(DecoderError::CursorError(CursorError::Eof))
    } else {
        let negative = data[p as int] == 45;
        let q = if negative { p + 1 } else { p };
        match spec_digits(data, q, 101) {
            Err(e) => Err(e),
            Ok((m, r)) => if negative && m == 0 {
                Err(DecoderError::NegativeZero)
            } else if (negative && m > 0x8000_0000_0000_0000) || (!negative && m > 0x7fff_ffff_ffff_ffff) {
                Err(DecoderError::NumberOverflow)
            } else {
                Ok((SpecBencode::Int(if negative { -(m as int) } else { m as int }), r))
            },
        }
    }
}

/// Decode one value at `pos`, with `depth` containers already open.
///
/// On success: the value, the position after it, and whether every
/// dictionary inside it listed its keys in strictly increasing order.
pub open spec fn spec_parse(data: Seq<u8>, pos: nat, depth: nat) -> Result<(SpecBencode, nat, bool), DecoderError>
    decreases data.len() - pos, 2nat,
{
    if pos >= data.len() {
        Err(DecoderError::CursorError(CursorError::Eof))
    } else {
        let b = data[pos as int];
        if is_digit(b) {
            match spec_string(data, pos) {
                Err(e) => Err(e),
                Ok((s, p)) => Ok((SpecBencode::Str(s), p, true)),
            }
        } else if b == 105 {
            match spec_integer(data, pos) {
                Err(e) => Err(e),
                Ok((v, p)) => Ok((v, p, true)),
            }
        } else if b == 100 {
            spec_dict(data, pos, depth)
        } else if b == 108 {
            spec_list(data, pos, depth)
        } else {
            Err(DecoderError::UnknownType(b as char))
        }
    }
}

/// A list at `pos` (whose byte is `l`).
pub open spec fn spec_list(data: Seq<u8>, pos: nat, depth: nat) -> Result<(SpecBencode, nat, bool), DecoderError>
    decreases data.len() - pos, 1nat,
{
    if pos >= data.len() {
        Err(DecoderError::CursorError(CursorError::Eof))
    } else if depth + 1 > DEPTH_MAX {
        Err(DecoderError::CursorError(CursorError::TooDeep))
    } else {
        spec_list_items(data, pos + 1, depth + 1, Seq::empty(), true)
    }
}

/// The rest of a list from `pos`, after the items `acc` already read.
pub open spec fn spec_list_items(
    data: Seq<u8>,
    pos: nat,
    depth: nat,
    acc: Seq<SpecBencode>,
    ordered: bool,
) -> Result<(SpecBencode, nat, bool), DecoderError>
    decreases data.len() - pos, 3nat,
{
    if pos >= data.len() {
        Err(DecoderError::CursorError(CursorError::Eof))
    } else if data[pos as int] == 101 {
        Ok((SpecBencode::List(acc), pos + 1, ordered))
    } else {
        match spec_parse(data, pos, depth) {
            Err(e) => Err(e),
            Ok((v, p, o)) => if pos < p <= data.len() {
                spec_list_items(data, p, depth, acc.push(v), ordered && o)
            } else {
                Err(DecoderError::CursorError(CursorError::Eof))
            },
        }
    }
}

/// A dictionary at `pos` (whose byte is `d`).
pub open spec fn spec_dict(data: Seq<u8>, pos: nat, depth: nat) -> Result<(SpecBencode, nat, bool), DecoderError>
    decreases data.len() - pos, 1nat,
{
    if pos >= data.len() {
        Err(DecoderError::CursorError(CursorError::Eof))
    } else if depth + 1 > DEPTH_MAX {
        Err(DecoderError::CursorError(CursorError::TooDeep))
    } else {
        spec_dict_entries(data, pos + 1, depth + 1, Seq::empty(), true)
    }
}

/// Whether key `k` may follow the entries `acc` in a canonical encoding.
pub open spec fn key_in_order(acc: Seq<(Seq<u8>, SpecBencode)>, k: Seq<u8>) -> bool {
    acc.len() == 0 || lex_lt(acc.last().0, k)
}

/// The rest of a dictionary from `pos`, after the entries `acc` already
/// read (kept in key order; a repeated key keeps its last value).
pub open spec fn spec_dict_entries(
    data: Seq<u8>,
    pos: nat,
    depth: nat,
    acc: Seq<(Seq<u8>, SpecBencode)>,
    ordered: bool,
) -> Result<(SpecBencode, nat, bool), DecoderError>
    decreases data.len() - pos, 3nat,
{
    if pos >= data.len() {
        Err(DecoderError::CursorError(CursorError::Eof))
    } else if data[pos as int] == 101 {
        Ok((SpecBencode::Dict(acc), pos + 1, ordered))
    } else {
        match spec_string(data, pos) {
            Err(e) => Err(e),
            Ok((k, p1)) => if p1 > pos {
                match spec_parse(data, p1, depth) {
                    Err(e) => Err(e),
                    Ok((v, p2, o)) => if p1 < p2 <= data.len() {
                        spec_dict_entries(
                            data,
                            p2,
                            depth,
                            dict_insert(acc, k, v),
                            ordered && o && key_in_order(acc, k),
                        )
                    } else {
                        Err(DecoderError::CursorError(CursorError::Eof))
                    },
                }
            } else {
                Err(DecoderError::CursorError(CursorError::Eof))
            },
        }
    }
}

/// What [`decode`] gives for `data`.
pub open spec fn spec_decode(data: Seq<u8>) -> Result<SpecBencode, DecoderError> {
    match spec_parse(data, 0, 0) {
        Err(e) => Err(e),
        Ok((v, p, _)) => if p < data.len() {
            Err(DecoderError::TrailingData)
        } else {
            Ok(v)
        },
    }
}

/// `data` decodes, and every dictionary in it lists its keys in strictly
/// increasing byte order: the form the encoder produces.
pub open spec fn canonical(data: Seq<u8>) -> bool {
    spec_parse(data, 0, 0) matches Ok((_, p, o)) && p == data.len() && o
}

// ---------------------------------------------------------------------
// Facts about the grammar.
// ---------------------------------------------------------------------

/// A successful parse consumes at least one byte.
pub proof fn lemma_parse_advances(data: Seq<u8>, pos: nat, depth: nat)
    ensures
        spec_parse(data, pos, depth) matches Ok((_, p, _)) ==> pos < p <= data.len(),
{
    reveal_with_fuel(spec_parse, 1);
    if pos < data.len() {
        let b = data[pos as int];
        if is_digit(b) || b == 105 {
            lemma_digit_run_end(data, pos);
            if b == 105 {
                lemma_digit_run_end(data, pos + 1);
                lemma_digit_run_end(data, pos + 2);
            }
        } else if b == 100 {
            lemma_dict_entries_advances(data, pos + 1, depth + 1, Seq::empty(), true);
        } else if b == 108 {
            lemma_list_items_advances(data, pos + 1, depth + 1, Seq::empty(), true);
        }
    }
}

pub proof fn lemma_list_items_advances(
    data: Seq<u8>,
    pos: nat,
    depth: nat,
    acc: Seq<SpecBencode>,
    ordered: bool,
)
    ensures
        spec_list_items(data, pos, depth, acc, ordered) matches Ok((_, p, _)) ==> pos < p <= data.len(),
    decreases data.len() - pos,
{
    if pos < data.len() && data[pos as int] != 101 {
        if let Ok((v, p, o)) = spec_parse(data, pos, depth) {
            if pos < p <= data.len() {
                lemma_list_items_advances(data, p, depth, acc.push(v), ordered && o);
            }
        }
    }
}

pub proof fn lemma_dict_entries_advances(
    data: Seq<u8>,
    pos: nat,
    depth: nat,
    acc: Seq<(Seq<u8>, SpecBencode)>,
    ordered: bool,
)
    ensures
        spec_dict_entries(data, pos, depth, acc, ordered) matches Ok((_, p, _)) ==> pos < p <= data.len(),
    decreases data.len() - pos,
{
    if pos < data.len() && data[pos as int] != 101 {
        if let Ok((k, p1)) = spec_string(data, pos) {
            if p1 > pos {
                if let Ok((v, p2, o)) = spec_parse(data, p1, depth) {
                    if p1 < p2 <= data.len() {
                        lemma_dict_entries_advances(
                            data,
                            p2,
                            depth,
                            dict_insert(acc, k, v),
                            ordered && o && key_in_order(acc, k),
                        );
                    }
                }
            }
        }
    }
}

/// The digit run starts at `pos` and every byte in it is a digit.
pub proof fn lemma_digit_run_end(data: Seq<u8>, pos: nat)
    ensures
        digit_run_end(data, pos) >= pos,
        pos <= data.len() ==> digit_run_end(data, pos) <= data.len(),
        forall|i: int| pos <= i < digit_run_end(data, pos) ==> is_digit(#[trigger] data[i]),
        digit_run_end(data, pos) < data.len() ==> !is_digit(data[digit_run_end(data, pos) as int]),
    decreases data.len() - pos,
{
    if pos < data.len() && is_digit(data[pos as int]) {
        lemma_digit_run_end(data, pos + 1);
    }
}

} // verus!

verus! {

/// Facts about decimal digit runs used by the decoder's proofs.
pub proof fn lemma_run_end_exact(data: Seq<u8>, start: nat, pos: nat)
    requires
        start <= pos <= data.len(),
        forall|i: int| start <= i < pos ==> is_digit(#[trigger] data[i]),
        pos == data.len() || !is_digit(data[pos as int]),
    ensures
        digit_run_end(data, start) == pos,
    decreases pos - start,
{
    if start < pos {
        lemma_run_end_exact(data, start + 1, pos);
    }
}

pub proof fn lemma_run_end_at_least(data: Seq<u8>, start: nat, q: nat)
    requires
        start <= q <= data.len(),
        forall|i: int| start <= i < q ==> is_digit(#[trigger] data[i]),
    ensures
        digit_run_end(data, start) >= q,
        forall|i: int| start <= i < digit_run_end(data, start) ==> is_digit(#[trigger] data[i]),
    decreases q - start,
{
    lemma_digit_run_end(data, start);
    if start < q {
        lemma_run_end_at_least(data, start + 1, q);
    }
}

/// A longer run of digits never spells a smaller number.
pub proof fn lemma_decimal_prefix_le(s: Seq<u8>, k: int)
    requires
        0 <= k <= s.len(),
        forall|i: int| 0 <= i < s.len() ==> is_digit(#[trigger] s[i]),
    ensures
        decimal_value(s.take(k)) <= decimal_value(s),
    decreases s.len(),
{
    if k < s.len() {
        let t = s.drop_last();
        assert(t.take(k) =~= s.take(k));
        lemma_decimal_prefix_le(t, k);
    } else {
        assert(s.take(k) =~= s);
    }
}

/// Lift a cursor error into a decoder error.
fn lift<T>(r: Result<T, CursorError>) -> (out: Result<T, DecoderError>)
    ensures
        match r {
            Ok(v) => out == Ok::<T, DecoderError>(v),
            Err(e) => out == Err::<T, DecoderError>(DecoderError::CursorError(e)),
        },
{
    match r {
        Ok(v) => Ok(v),
        Err(e) => Err(DecoderError::CursorError(e)),
    }
}

/// Read ASCII digits until `stop`, accumulating them into a number.
///
/// Rejects an empty run of digits and any leading zero followed by more
/// digits; a bare `0` is allowed.
fn decode_digits(cursor: &mut Cursor<'_>, stop: u8) -> (r: Result<u64, DecoderError>)
    requires
        !is_digit(stop),
    ensures
        final(cursor).input() == old(cursor).input(),
        final(cursor).nesting() == old(cursor).nesting(),
        match spec_digits(old(cursor).input(), old(cursor).position(), stop) {
            Ok((n, p)) => r == Ok::<u64, DecoderError>(n as u64) && final(cursor).position() == p,
            Err(e) => r == Err::<u64, DecoderError>(e),
        },
{
    let ghost data = cursor.input();
    let start = cursor.pos();
    let mut number: u64 = 0;
    let mut digits: usize = 0;
    let mut leading_zeros = false;
    loop
        invariant_except_break
            cursor.input() == data,
            cursor.nesting() == old(cursor).nesting(),
            old(cursor).input() == data,
            old(cursor).position() == start,
            start <= cursor.position() <= data.len(),
            data.len() <= usize::MAX,
            cursor.position() == start + digits,
            forall|i: int| start <= i < cursor.position() ==> is_digit(#[trigger] data[i]),
            number == decimal_value(data.subrange(start as int, cursor.position() as int)),
            leading_zeros == (digits > 0 && data[start as int] == 48),
            !is_digit(stop),
        ensures
            cursor.input() == data,
            cursor.nesting() == old(cursor).nesting(),
            old(cursor).input() == data,
            old(cursor).position() == start,
            start + digits < data.len(),
            cursor.position() == start + digits + 1,
            digit_run_end(data, start as nat) == start + digits,
            data[start + digits] == stop,
            number == decimal_value(data.subrange(start as int, start + digits)),
            leading_zeros == (digits > 0 && data[start as int] == 48),
        decreases data.len() - cursor.position(),
    {
        let ghost pos = cursor.position();
        let byte = match cursor.bump() {
            Ok(b) => b,
            Err(e) => {
                proof {
                    lemma_run_end_exact(data, start as nat, pos);
                    if pos == start {
                    } else {
                    }
                }
                return Err(DecoderError::CursorError(e));
            },
        };
        if byte == stop {
            proof {
                lemma_run_end_exact(data, start as nat, pos);
            }
            break;
        }
        if byte < 48 || byte > 57 {
            proof {
                lemma_run_end_exact(data, start as nat, pos);
            }
            return Err(DecoderError::UnexpectedNumber { got: byte });
        }
        let digit = (byte - 48) as u64;
        if digits == 0 && digit == 0 {
            leading_zeros = true;
        }
        let ghost sub = data.subrange(start as int, (pos + 1) as int);
        assert(sub.drop_last() =~= data.subrange(start as int, pos as int));
        let next = match number.checked_mul(10) {
            Some(m) => m.checked_add(digit),
            None => None,
        };
        match next {
            Some(n) => {
                number = n;
            },
            None => {
                proof {
                    lemma_run_end_at_least(data, start as nat, pos + 1);
                    lemma_digit_run_end(data, start as nat);
                    let end = digit_run_end(data, start as nat);
                    let run = data.subrange(start as int, end as int);
                    assert(run.take(pos + 1 - start) =~= sub);
                    assert forall|i: int| 0 <= i < run.len() implies is_digit(#[trigger] run[i]) by {
                        assert(run[i] == data[start + i]);
                    }
                    assert(end > start);
                    lemma_decimal_prefix_le(run, pos + 1 - start);
                }
                return Err(DecoderError::NumberOverflow);
            },
        }
        digits = digits + 1;
    }
    if digits == 0 {
        return Err(DecoderError::EmptyNumber);
    }
    if leading_zeros && digits > 1 {
        return Err(DecoderError::LeadingZero);
    }
    Ok(number)
}

/// Decode a byte string: a length in ASCII digits, a `:`, then that many
/// bytes. Returns a borrow of the input rather than a copy.
fn decode_string<'a>(cursor: &mut Cursor<'a>) -> (r: Result<&'a [u8], DecoderError>)
    ensures
        final(cursor).input() == old(cursor).input(),
        final(cursor).nesting() == old(cursor).nesting(),
        match spec_string(old(cursor).input(), old(cursor).position()) {
            Ok((s, p)) => r is Ok && r->Ok_0@ == s && final(cursor).position() == p,
            Err(e) => r == Err::<&'a [u8], DecoderError>(e),
        },
{
    let length = match decode_digits(cursor, 58) {
        Ok(n) => n,
        Err(e) => {
            return Err(e);
        },
    };
    if length > usize::MAX as u64 {
        return Err(DecoderError::CursorError(CursorError::Overflow));
    }
    lift(cursor.take(length as usize))
}

/// Decode an integer: `i`, an optional `-`, digits, then `e`.
fn decode_integer<'a>(cursor: &mut Cursor<'a>) -> (r: Result<Bencode<'a>, DecoderError>)
    requires
        old(cursor).position() < old(cursor).input().len(),
        old(cursor).input()[old(cursor).position() as int] == 105,
    ensures
        final(cursor).input() == old(cursor).input(),
        final(cursor).nesting() == old(cursor).nesting(),
        match spec_integer(old(cursor).input(), old(cursor).position()) {
            Ok((v, p)) => r is Ok && r->Ok_0@ == v && final(cursor).position() == p,
            Err(e) => r == Err::<Bencode<'a>, DecoderError>(e),
        },
{
    match cursor.expect(105) {
        Ok(()) => {},
        Err(e) => {
            return Err(DecoderError::CursorError(e));
        },
    }
    let negative = match cursor.peek() {
        Ok(b) => b == 45,
        Err(e) => {
            return Err(DecoderError::CursorError(e));
        },
    };
    if negative {
        let _ = cursor.bump();
    }
    let magnitude = match decode_digits(cursor, 101) {
        Ok(m) => m,
        Err(e) => {
            return Err(e);
        },
    };
    if negative && magnitude == 0 {
        return Err(DecoderError::NegativeZero);
    }
    if negative {
        if magnitude > 0x8000_0000_0000_0000 {
            return Err(DecoderError::NumberOverflow);
        }
        if magnitude == 0x8000_0000_0000_0000 {
            Ok(Bencode::Integer(i64::MIN))
        } else {
            Ok(Bencode::Integer(-(magnitude as i64)))
        }
    } else {
        if magnitude > 0x7fff_ffff_ffff_ffff {
            return Err(DecoderError::NumberOverflow);
        }
        Ok(Bencode::Integer(magnitude as i64))
    }
}

/// Decode one value, dispatching on its first byte.
///
/// The recursion through `decode_list` and `decode_dictionary` is measured
/// by the nesting left below [`DEPTH_MAX`]: a nested value is parsed only
/// after the cursor has entered one more level, so however the input is
/// built, the chain of calls is at most three frames per level and never
/// deeper than [`DEPTH_MAX`] levels.
fn parse<'a>(cursor: &mut Cursor<'a>) -> (r: Result<Bencode<'a>, DecoderError>)
    requires
        old(cursor).nesting() <= DEPTH_MAX,
    ensures
        final(cursor).input() == old(cursor).input(),
        match spec_parse(old(cursor).input(), old(cursor).position(), old(cursor).nesting()) {
            Ok((v, p, _)) => r is Ok && r->Ok_0@ == v && final(cursor).position() == p
                && final(cursor).nesting() == old(cursor).nesting(),
            Err(e) => r == Err::<Bencode<'a>, DecoderError>(e),
        },
    decreases DEPTH_MAX - old(cursor).nesting(), 2nat,
{
    let _ = cursor.pos();
    let b = match cursor.peek() {
        Ok(b) => b,
        Err(e) => {
            return Err(DecoderError::CursorError(e));
        },
    };
    if b >= 48 && b <= 57 {
        match decode_string(cursor) {
            Ok(s) => Ok(Bencode::String(s)),
            Err(e) => Err(e),
        }
    } else if b == 105 {
        decode_integer(cursor)
    } else if b == 100 {
        decode_dictionary(cursor)
    } else if b == 108 {
        decode_list(cursor)
    } else {
        Err(DecoderError::UnknownType(b as char))
    }
}

/// Decode a list: `l`, then any number of values, then `e`.
fn decode_list<'a>(cursor: &mut Cursor<'a>) -> (r: Result<Bencode<'a>, DecoderError>)
    requires
        old(cursor).nesting() <= DEPTH_MAX,
        old(cursor).position() < old(cursor).input().len(),
        old(cursor).input()[old(cursor).position() as int] == 108,
    ensures
        final(cursor).input() == old(cursor).input(),
        match spec_list(old(cursor).input(), old(cursor).position(), old(cursor).nesting()) {
            Ok((v, p, _)) => r is Ok && r->Ok_0@ == v && final(cursor).position() == p
                && final(cursor).nesting() == old(cursor).nesting(),
            Err(e) => r == Err::<Bencode<'a>, DecoderError>(e),
        },
    decreases DEPTH_MAX - old(cursor).nesting(), 1nat,
{
    let ghost data = cursor.input();
    let ghost p0 = cursor.position();
    let ghost d0 = cursor.nesting();
    match cursor.expect(108) {
        Ok(()) => {},
        Err(e) => {
            return Err(DecoderError::CursorError(e));
        },
    }
    match cursor.enter() {
        Ok(()) => {},
        Err(e) => {
            return Err(DecoderError::CursorError(e));
        },
    }
    let mut list: Vec<Bencode<'a>> = Vec::new();
    let ghost mut ordered = true;
    assert(list_view(list@) =~= Seq::<SpecBencode>::empty());
    loop
        invariant_except_break
            cursor.input() == data,
            old(cursor).input() == data,
            old(cursor).position() == p0,
            old(cursor).nesting() == d0,
            cursor.nesting() == d0 + 1,
            d0 + 1 <= DEPTH_MAX,
            p0 < cursor.position() <= data.len(),
            spec_list(data, p0, d0) == spec_list_items(
                data,
                cursor.position(),
                d0 + 1,
                list_view(list@),
                ordered,
            ),
        ensures
            cursor.input() == data,
            old(cursor).input() == data,
            old(cursor).position() == p0,
            old(cursor).nesting() == d0,
            cursor.nesting() == d0 + 1,
            p0 < cursor.position() < data.len(),
            data[cursor.position() as int] == 101,
            spec_list(data, p0, d0) == spec_list_items(
                data,
                cursor.position(),
                d0 + 1,
                list_view(list@),
                ordered,
            ),
        decreases data.len() - cursor.position(),
    {
        let b = match cursor.peek() {
            Ok(b) => b,
            Err(e) => {
                return Err(DecoderError::CursorError(e));
            },
        };
        if b == 101 {
            break;
        }
        let ghost pos = cursor.position();
        let value = match parse(cursor) {
            Ok(v) => v,
            Err(e) => {
                return Err(e);
            },
        };
        proof {
            lemma_parse_advances(data, pos, d0 + 1);
            let o = spec_parse(data, pos, d0 + 1)->Ok_0.2;
            ordered = ordered && o;
        }
        let ghost before = list@;
        list.push(value);
        assert(list@.drop_last() =~= before);
    }
    let _ = cursor.bump();
    cursor.leave();
    Ok(Bencode::List(list))
}

/// Decode a dictionary: `d`, then alternating keys and values, then `e`.
///
/// Keys are kept in byte order; a repeated key keeps its last value.
fn decode_dictionary<'a>(cursor: &mut Cursor<'a>) -> (r: Result<Bencode<'a>, DecoderError>)
    requires
        old(cursor).nesting() <= DEPTH_MAX,
        old(cursor).position() < old(cursor).input().len(),
        old(cursor).input()[old(cursor).position() as int] == 100,
    ensures
        final(cursor).input() == old(cursor).input(),
        match spec_dict(old(cursor).input(), old(cursor).position(), old(cursor).nesting()) {
            Ok((v, p, _)) => r is Ok && r->Ok_0@ == v && final(cursor).position() == p
                && final(cursor).nesting() == old(cursor).nesting(),
            Err(e) => r == Err::<Bencode<'a>, DecoderError>(e),
        },
    decreases DEPTH_MAX - old(cursor).nesting(), 1nat,
{
    let ghost data = cursor.input();
    let ghost p0 = cursor.position();
    let ghost d0 = cursor.nesting();
    match cursor.expect(100) {
        Ok(()) => {},
        Err(e) => {
            return Err(DecoderError::CursorError(e));
        },
    }
    match cursor.enter() {
        Ok(()) => {},
        Err(e) => {
            return Err(DecoderError::CursorError(e));
        },
    }
    let mut dictionary = Dictionary::new();
    let ghost mut ordered = true;
    loop
        invariant_except_break
            cursor.input() == data,
            old(cursor).input() == data,
            old(cursor).position() == p0,
            old(cursor).nesting() == d0,
            cursor.nesting() == d0 + 1,
            d0 + 1 <= DEPTH_MAX,
            p0 < cursor.position() <= data.len(),
            spec_dict(data, p0, d0) == spec_dict_entries(
                data,
                cursor.position(),
                d0 + 1,
                dictionary@,
                ordered,
            ),
        ensures
            cursor.input() == data,
            old(cursor).input() == data,
            old(cursor).position() == p0,
            old(cursor).nesting() == d0,
            cursor.nesting() == d0 + 1,
            p0 < cursor.position() < data.len(),
            data[cursor.position() as int] == 101,
            spec_dict(data, p0, d0) == spec_dict_entries(
                data,
                cursor.position(),
                d0 + 1,
                dictionary@,
                ordered,
            ),
        decreases data.len() - cursor.position(),
    {
        let b = match cursor.peek() {
            Ok(b) => b,
            Err(e) => {
                return Err(DecoderError::CursorError(e));
            },
        };
        if b == 101 {
            break;
        }
        let ghost pos = cursor.position();
        let key = match decode_string(cursor) {
            Ok(k) => k,
            Err(e) => {
                return Err(e);
            },
        };
        let ghost p1 = cursor.position();
        proof {
            lemma_digit_run_end(data, pos);
        }
        let value = match parse(cursor) {
            Ok(v) => v,
            Err(e) => {
                return Err(e);
            },
        };
        proof {
            lemma_parse_advances(data, p1, d0 + 1);
            let o = spec_parse(data, p1, d0 + 1)->Ok_0.2;
            ordered = ordered && o && key_in_order(dictionary@, key@);
        }
        dictionary.insert(key, value);
    }
    let _ = cursor.bump();
    cursor.leave();
    Ok(Bencode::Dictionary(dictionary))
}

/// Decode a single bencode value from `data`.
///
/// The returned value borrows from `data`, so no byte strings are copied.
/// Any bytes are accepted; the recursion is bounded by [`DEPTH_MAX`] levels
/// of nesting (see `parse`), so hostile input cannot exhaust the stack.
pub fn decode(data: &[u8]) -> (r: Result<Bencode<'_>, DecoderError>)
    ensures
        match spec_decode(data@) {
            Ok(v) => r is Ok && r->Ok_0@ == v,
            Err(e) => r == Err::<Bencode<'_>, DecoderError>(e),
        },
{
    let mut cursor = Cursor::new(data);
    let value = match parse(&mut cursor) {
        Ok(v) => v,
        Err(e) => {
            return Err(e);
        },
    };
    if !cursor.is_empty() {
        return Err(DecoderError::TrailingData);
    }
    Ok(value)
}

} // verus!

verus! {

/// A half-open byte range into the decoded input: `[start, end)`.
pub type Span = (usize, usize);

/// Byte ranges keyed by byte strings, kept in strictly increasing key order.
#[derive(Debug)]
pub struct SpanMap<'a> {
    entries: Vec<(&'a [u8], Span)>,
}

/// The models of a sequence of span entries.
pub open spec fn span_entries_view<'a>(s: Seq<(&'a [u8], Span)>) -> Seq<(Seq<u8>, Span)>
    decreases s.len(),
{
    if s.len() == 0 {
        Seq::empty()
    } else {
        span_entries_view(s.drop_last()).push((s.last().0@, s.last().1))
    }
}

proof fn lemma_span_entries_view<'a>(s: Seq<(&'a [u8], Span)>)
    ensures
        span_entries_view(s).len() == s.len(),
        forall|i: int| 0 <= i < s.len() ==> #[trigger] span_entries_view(s)[i] == (s[i].0@, s[i].1),
    decreases s.len(),
{
    if s.len() > 0 {
        lemma_span_entries_view(s.drop_last());
    }
}

impl<'a> SpanMap<'a> {
    /// The entries in key order.
    pub closed spec fn view(&self) -> Seq<(Seq<u8>, Span)> {
        span_entries_view(self.entries@)
    }

    #[verifier::type_invariant]
    closed spec fn inv(self) -> bool {
        keys_sorted(self.view())
    }

    /// An empty map.
    pub fn new() -> (m: Self)
        ensures
            m@ == Seq::<(Seq<u8>, Span)>::empty(),
    {
        SpanMap { entries: Vec::new() }
    }

    /// Number of entries.
    pub fn len(&self) -> (n: usize)
        ensures
            n == self@.len(),
    {
        proof {
            lemma_span_entries_view(self.entries@);
        }
        self.entries.len()
    }

    /// The key of the `i`-th entry in key order.
    pub fn key_at(&self, i: usize) -> (k: &'a [u8])
        requires
            i < self@.len(),
        ensures
            k@ == self@[i as int].0,
    {
        proof {
            lemma_span_entries_view(self.entries@);
        }
        self.entries[i].0
    }

    /// The span of the `i`-th entry in key order.
    pub fn span_at(&self, i: usize) -> (sp: Span)
        requires
            i < self@.len(),
        ensures
            sp == self@[i as int].1,
    {
        proof {
            lemma_span_entries_view(self.entries@);
        }
        self.entries[i].1
    }

    /// Insert a span, replacing any span already stored under an equal key.
    pub fn insert(&mut self, key: &'a [u8], span: Span)
        ensures
            final(self)@ == dict_insert(old(self)@, key@, span),
    {
        proof {
            use_type_invariant(&*self);
            lemma_span_entries_view(self.entries@);
        }
        let ghost s = self@;
        let mut entries: Vec<(&'a [u8], Span)> = Vec::new();
        std::mem::swap(&mut entries, &mut self.entries);
        let mut i = entries.len();
        assert(s.take(i as int) =~= s);
        assert(s.skip(i as int) =~= Seq::<(Seq<u8>, Span)>::empty());
        assert(dict_insert(s, key@, span) + s.skip(i as int) =~= dict_insert(s, key@, span));
        while i > 0 && bytes_lt(key, entries[i - 1].0)
            invariant
                i <= entries@.len(),
                s == span_entries_view(entries@),
                s.len() == entries@.len(),
                forall|j: int| 0 <= j < s.len() ==> #[trigger] s[j] == (entries@[j].0@, entries@[j].1),
                dict_insert(s, key@, span) == dict_insert(s.take(i as int), key@, span) + s.skip(i as int),
            decreases i,
        {
            proof {
                let t = s.take(i as int);
                lemma_lex_trichotomy(key@, s[i - 1].0);
                assert(t.last() == s[i - 1]);
                assert(t.drop_last() =~= s.take(i - 1));
                assert(s.skip(i - 1) =~= seq![s[i - 1]] + s.skip(i as int));
                assert(dict_insert(t, key@, span) == dict_insert(s.take(i - 1), key@, span).push(s[i - 1]));
                assert(dict_insert(s.take(i - 1), key@, span).push(s[i - 1]) + s.skip(i as int)
                    =~= dict_insert(s.take(i - 1), key@, span) + s.skip(i - 1));
            }
            i = i - 1;
        }
        if i > 0 && bytes_eq(entries[i - 1].0, key) {
            let _ = entries.remove(i - 1);
            entries.insert(i - 1, (key, span));
            proof {
                let t = s.take(i as int);
                assert(t.last() == s[i - 1]);
                assert(t.drop_last() =~= s.take(i - 1));
                lemma_span_entries_view(entries@);
                assert(span_entries_view(entries@) =~= dict_insert(s, key@, span));
            }
        } else {
            entries.insert(i, (key, span));
            proof {
                let t = s.take(i as int);
                if i > 0 {
                    lemma_lex_trichotomy(key@, s[i - 1].0);
                    assert(t.last() == s[i - 1]);
                    assert(dict_insert(t, key@, span) == t.push((key@, span)));
                }
                lemma_span_entries_view(entries@);
                assert(span_entries_view(entries@) =~= dict_insert(s, key@, span));
            }
        }
        proof {
            lemma_dict_insert_sorted(s, key@, span);
        }
        self.entries = entries;
    }

    /// The span stored under `key`, if any.
    pub fn get(&self, key: &[u8]) -> (r: Option<Span>)
        ensures
            r == dict_get(self@, key@),
    {
        proof {
            lemma_span_entries_view(self.entries@);
        }
        let ghost s = self@;
        let mut i: usize = 0;
        assert(s.skip(0) =~= s);
        while i < self.entries.len()
            invariant
                i <= self.entries@.len(),
                s == span_entries_view(self.entries@),
                s.len() == self.entries@.len(),
                forall|j: int| 0 <= j < s.len() ==> #[trigger] s[j] == (self.entries@[j].0@, self.entries@[j].1),
                dict_get(s, key@) == dict_get(s.skip(i as int), key@),
            decreases self.entries@.len() - i,
        {
            assert(s.skip(i as int)[0] == s[i as int]);
            if bytes_eq(self.entries[i].0, key) {
                return Some(self.entries[i].1);
            }
            assert(s.skip(i as int).drop_first() =~= s.skip(i + 1));
            i = i + 1;
        }
        None
    }
}

/// A decoded top-level dictionary, with the byte range of each value.
#[derive(Debug)]
pub struct DecodedRoot<'a> {
    /// The dictionary's keys and decoded values.
    pub root: Dictionary<'a>,
    /// Where each value's raw bytes sit in the input, keyed the same way.
    /// Spans cover the value only, never its key.
    pub spans: SpanMap<'a>,
}

/// The entries of the top-level dictionary from `pos` on, after the
/// entries `root` (with their spans `spans`) already read.
pub open spec fn spec_span_entries(
    data: Seq<u8>,
    pos: nat,
    root: Seq<(Seq<u8>, SpecBencode)>,
    spans: Seq<(Seq<u8>, Span)>,
) -> Result<(Seq<(Seq<u8>, SpecBencode)>, Seq<(Seq<u8>, Span)>, nat), DecoderError>
    decreases data.len() - pos,
{
    if pos >= data.len() {
        Err(DecoderError::CursorError(CursorError::Eof))
    } else if data[pos as int] == 101 {
        Ok((root, spans, pos + 1))
    } else {
        match spec_string(data, pos) {
            Err(e) => Err(e),
            Ok((k, p1)) => if p1 > pos {
                match spec_parse(data, p1, 1) {
                    Err(e) => Err(e),
                    Ok((v, p2, _)) => if p1 < p2 <= data.len() {
                        spec_span_entries(
                            data,
                            p2,
                            dict_insert(root, k, v),
                            dict_insert(spans, k, (p1 as usize, p2 as usize)),
                        )
                    } else {
                        Err(DecoderError::CursorError(CursorError::Eof))
                    },
                }
            } else {
                Err(DecoderError::CursorError(CursorError::Eof))
            },
        }
    }
}

/// What [`decode_dictionary_with_spans`] gives for `data`: the root
/// dictionary's entries and the span of each value.
pub open spec fn spec_decode_with_spans(data: Seq<u8>) -> Result<
    (Seq<(Seq<u8>, SpecBencode)>, Seq<(Seq<u8>, Span)>),
    DecoderError,
> {
    if data.len() == 0 {
        Err(DecoderError::CursorError(CursorError::Eof))
    } else if data[0] != 100 {
        Err(DecoderError::CursorError(CursorError::Unexpected { want: 100, got: data[0] }))
    } else {
        match spec_span_entries(data, 1, Seq::empty(), Seq::empty()) {
            Err(e) => Err(e),
            Ok((root, spans, p)) => if p < data.len() {
                Err(DecoderError::TrailingData)
            } else {
                Ok((root, spans))
            },
        }
    }
}

pub proof fn lemma_span_entries_advances(
    data: Seq<u8>,
    pos: nat,
    root: Seq<(Seq<u8>, SpecBencode)>,
    spans: Seq<(Seq<u8>, Span)>,
)
    ensures
        spec_span_entries(data, pos, root, spans) matches Ok((_, _, p)) ==> pos < p <= data.len(),
    decreases data.len() - pos,
{
    if pos < data.len() && data[pos as int] != 101 {
        if let Ok((k, p1)) = spec_string(data, pos) {
            if p1 > pos {
                if let Ok((v, p2, o)) = spec_parse(data, p1, 1) {
                    if p1 < p2 <= data.len() {
                        lemma_span_entries_advances(
                            data,
                            p2,
                            dict_insert(root, k, v),
                            dict_insert(spans, k, (p1 as usize, p2 as usize)),
                        );
                    }
                }
            }
        }
    }
}

/// Read the top-level dictionary's entries up to its closing `e`, adding
/// each to `root` and its value's span to `spans`.
fn read_span_entries<'a>(
    cursor: &mut Cursor<'a>,
    root: &mut Dictionary<'a>,
    spans: &mut SpanMap<'a>,
) -> (r: Result<(), DecoderError>)
    requires
        old(cursor).nesting() == 1,
        0 < old(cursor).position(),
    ensures
        final(cursor).input() == old(cursor).input(),
        match spec_span_entries(old(cursor).input(), old(cursor).position(), old(root)@, old(spans)@) {
            Ok((rt, sp, p)) => r is Ok && final(root)@ == rt && final(spans)@ == sp
                && final(cursor).position() == p && final(cursor).nesting() == 1,
            Err(e) => r == Err::<(), DecoderError>(e),
        },
{
    let ghost d = cursor.input();
    let ghost p0 = cursor.position();
    let ghost total = spec_span_entries(d, p0, root@, spans@);
    let _ = cursor.pos();
    loop
        invariant_except_break
            cursor.input() == d,
            cursor.nesting() == 1,
            0 < cursor.position() <= d.len(),
            old(cursor).input() == d,
            old(cursor).position() == p0,
            total == spec_span_entries(d, p0, old(root)@, old(spans)@),
            total == spec_span_entries(d, cursor.position(), root@, spans@),
        ensures
            cursor.input() == d,
            cursor.nesting() == 1,
            0 < cursor.position() < d.len(),
            d[cursor.position() as int] == 101,
            old(cursor).input() == d,
            old(cursor).position() == p0,
            total == spec_span_entries(d, p0, old(root)@, old(spans)@),
            total == spec_span_entries(d, cursor.position(), root@, spans@),
        decreases d.len() - cursor.position(),
    {
        let b = match cursor.peek() {
            Ok(b) => b,
            Err(e) => {
                return Err(DecoderError::CursorError(e));
            },
        };
        if b == 101 {
            break;
        }
        let ghost pos = cursor.position();
        let key = match decode_string(cursor) {
            Ok(k) => k,
            Err(e) => {
                return Err(e);
            },
        };
        proof {
            lemma_digit_run_end(d, pos);
        }
        let start = cursor.pos();
        let value = match parse(cursor) {
            Ok(v) => v,
            Err(e) => {
                return Err(e);
            },
        };
        proof {
            lemma_parse_advances(d, start as nat, 1);
        }
        let end = cursor.pos();
        root.insert(key, value);
        spans.insert(key, (start, end));
    }
    let _ = cursor.bump();
    Ok(())
}

/// Decode a top-level dictionary, recording where each value's bytes live.
///
/// The infohash of a torrent is a hash of the raw `info` value exactly as
/// written; the span says where those bytes are.
pub fn decode_dictionary_with_spans(data: &[u8]) -> (r: Result<DecodedRoot<'_>, DecoderError>)
    ensures
        match spec_decode_with_spans(data@) {
            Ok((root, spans)) => r is Ok && r->Ok_0.root@ == root && r->Ok_0.spans@ == spans,
            Err(e) => r is Err && r->Err_0 == e,
        },
{
    let mut cursor = Cursor::new(data);
    match cursor.expect(100) {
        Ok(()) => {},
        Err(e) => {
            return Err(DecoderError::CursorError(e));
        },
    }
    match cursor.enter() {
        Ok(()) => {},
        Err(e) => {
            return Err(DecoderError::CursorError(e));
        },
    }
    let mut root = Dictionary::new();
    let mut spans = SpanMap::new();
    match read_span_entries(&mut cursor, &mut root, &mut spans) {
        Ok(()) => {},
        Err(e) => {
            return Err(e);
        },
    }
    if !cursor.is_empty() {
        return Err(DecoderError::TrailingData);
    }
    cursor.leave();
    Ok(DecodedRoot { root, spans })
}

} // verus!
