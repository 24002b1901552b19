//! Decoding bytes into an owned value, with the client's own error kinds.

use vstd::prelude::*;
use vstd::string::StringExecFns;

use crate::bencode::cursor::{CursorError, DEPTH_MAX};
use crate::bencode::encoder::spec_encode;
use crate::bencode::laws::well_formed;
use crate::bencode::decoder::{decode as decode_borrowed, decimal_value, is_digit, lemma_decimal_prefix_le, spec_decode, DecoderError as CrateError};
use crate::bencode::spec::{height, SpecBencode};
use crate::text::char_to_string;

use super::Bencode;

verus! {

/// Why bytes could not be decoded.
#[derive(Debug)]
pub enum DecoderError {
    Empty,
    UnexpectedExtraData,
    InvalidIntegerSyntax,
    InvalidByte(String),
    IntegerLeadingZero,
    IntegerNegativeZero,
}

/// An error, with its text as a character sequence.
pub enum SpecDecoderError {
    Empty,
    UnexpectedExtraData,
    InvalidIntegerSyntax,
    InvalidByte(Seq<char>),
    IntegerLeadingZero,
    IntegerNegativeZero,
}

impl View for DecoderError {
    type V = SpecDecoderError;

    open spec fn view(&self) -> SpecDecoderError {
        match self {
            DecoderError::Empty => SpecDecoderError::Empty,
            DecoderError::UnexpectedExtraData => SpecDecoderError::UnexpectedExtraData,
            DecoderError::InvalidIntegerSyntax => SpecDecoderError::InvalidIntegerSyntax,
            DecoderError::InvalidByte(s) => SpecDecoderError::InvalidByte(s@),
            DecoderError::IntegerLeadingZero => SpecDecoderError::IntegerLeadingZero,
            DecoderError::IntegerNegativeZero => SpecDecoderError::IntegerNegativeZero,
        }
    }
}

/// The message each error is shown with.
pub open spec fn error_text(e: SpecDecoderError) -> Seq<char> {
    match e {
        SpecDecoderError::Empty => "no bytes to read"@,
        SpecDecoderError::UnexpectedExtraData => "unexpected extra data"@,
        SpecDecoderError::InvalidIntegerSyntax => "invalid integer syntax"@,
        SpecDecoderError::InvalidByte(s) => "invalid byte for type: "@ + s,
        SpecDecoderError::IntegerLeadingZero => "integer is leading with zeros"@,
        SpecDecoderError::IntegerNegativeZero => "integer is negative zero"@,
    }
}

impl DecoderError {
    /// The message this error is shown with.
    pub fn to_string(&self) -> (r: String)
        ensures
            r@ == error_text(self@),
    {
        match self {
            DecoderError::Empty => String::from_str("no bytes to read"),
            DecoderError::UnexpectedExtraData => String::from_str("unexpected extra data"),
            DecoderError::InvalidIntegerSyntax => String::from_str("invalid integer syntax"),
            DecoderError::InvalidByte(s) => {
                let mut r = String::from_str("invalid byte for type: ");
                r.append(s.as_str());
                r
            },
            DecoderError::IntegerLeadingZero => String::from_str("integer is leading with zeros"),
            DecoderError::IntegerNegativeZero => String::from_str("integer is negative zero"),
        }
    }
}

/// How a failure of the bencode grammar is reported: running out of input
/// is `Empty`; a byte that starts no value, or a marker other than the one
/// required, is named; a malformed number is a syntax error; values nested
/// too deeply are an invalid byte with no text.
pub open spec fn error_of(e: CrateError) -> SpecDecoderError {
    match e {
        CrateError::TrailingData => SpecDecoderError::UnexpectedExtraData,
        CrateError::UnknownType(c) => SpecDecoderError::InvalidByte(seq![c]),
        CrateError::EmptyNumber => SpecDecoderError::InvalidIntegerSyntax,
        CrateError::UnexpectedNumber { .. } => SpecDecoderError::InvalidIntegerSyntax,
        CrateError::LeadingZero => SpecDecoderError::IntegerLeadingZero,
        CrateError::NegativeZero => SpecDecoderError::IntegerNegativeZero,
        CrateError::NumberOverflow => SpecDecoderError::InvalidIntegerSyntax,
        CrateError::CursorError(CursorError::Eof) => SpecDecoderError::Empty,
        CrateError::CursorError(CursorError::Overflow) => SpecDecoderError::InvalidIntegerSyntax,
        CrateError::CursorError(CursorError::Unexpected { got, .. }) => SpecDecoderError::InvalidByte(
            seq![got as char],
        ),
        CrateError::CursorError(CursorError::TooDeep) => SpecDecoderError::InvalidByte(Seq::empty()),
    }
}

fn convert_error(e: CrateError) -> (r: DecoderError)
    ensures
        r@ == error_of(e),
{
    match e {
        CrateError::TrailingData => DecoderError::UnexpectedExtraData,
        CrateError::UnknownType(c) => DecoderError::InvalidByte(char_to_string(c)),
        CrateError::EmptyNumber => DecoderError::InvalidIntegerSyntax,
        CrateError::UnexpectedNumber { .. } => DecoderError::InvalidIntegerSyntax,
        CrateError::LeadingZero => DecoderError::IntegerLeadingZero,
        CrateError::NegativeZero => DecoderError::IntegerNegativeZero,
        CrateError::NumberOverflow => DecoderError::InvalidIntegerSyntax,
        CrateError::CursorError(CursorError::Eof) => DecoderError::Empty,
        CrateError::CursorError(CursorError::Overflow) => DecoderError::InvalidIntegerSyntax,
        CrateError::CursorError(CursorError::Unexpected { got, .. }) => DecoderError::InvalidByte(
            char_to_string(got as char),
        ),
        CrateError::CursorError(CursorError::TooDeep) => DecoderError::InvalidByte(String::new()),
    }
}

/// What decoding `data` gives: the bencode grammar, with its errors in
/// this module's terms.
pub open spec fn spec_protocol_decode(data: Seq<u8>) -> Result<SpecBencode, SpecDecoderError> {
    match spec_decode(data) {
        Ok(v) => Ok(v),
        Err(e) => Err(error_of(e)),
    }
}

/// Decodes one bencode document.
#[derive(Debug)]
pub struct Decoder<'a> {
    input: &'a [u8],
}

impl<'a> Decoder<'a> {
    pub fn new(input: &'a [u8]) -> (r: Self)
        ensures
            r.input() == input@,
    {
        Self { input }
    }

    /// The bytes being decoded.
    pub closed spec fn input(&self) -> Seq<u8> {
        self.input@
    }

    /// Decode the whole input as one value.
    pub fn decode(&mut self) -> (r: Result<Bencode, DecoderError>)
        ensures
            final(self).input() == old(self).input(),
            match spec_protocol_decode(old(self).input()) {
                Ok(v) => r is Ok && r->Ok_0@ == v,
                Err(e) => r is Err && r->Err_0@ == e,
            },
    {
        match decode_borrowed(self.input) {
            Ok(v) => Ok(Bencode::from_borrowed(&v)),
            Err(e) => Err(convert_error(e)),
        }
    }
}

/// The text after an optional leading sign.
pub open spec fn number_digits(s: Seq<u8>) -> Seq<u8> {
    if s.len() > 0 && (s[0] == 43 || s[0] == 45) {
        s.skip(1)
    } else {
        s
    }
}

/// What `str::parse::<i64>` gives for text made of these bytes: an optional
/// `+` or `-`, then one or more ASCII digits, in range.
pub open spec fn parse_i64(s: Seq<u8>) -> Option<i64> {
    let digits = number_digits(s);
    let negative = s.len() > 0 && s[0] == 45;
    if digits.len() == 0 || exists|i: int| 0 <= i < digits.len() && !is_digit(#[trigger] digits[i]) {
        None
    } else {
        let v: int = if negative { -decimal_value(digits) } else { decimal_value(digits) as int };
        if i64::MIN <= v <= i64::MAX {
            Some(v as i64)
        } else {
            None
        }
    }
}

/// Read bytes, one character each, as a decimal integer.
pub fn bytes_to_integer(bytes: Vec<u8>) -> (r: Result<i64, DecoderError>)
    ensures
        match parse_i64(bytes@) {
            Some(n) => r is Ok && r->Ok_0 == n,
            None => r is Err && r->Err_0@ == SpecDecoderError::InvalidIntegerSyntax,
        },
{
    let n = bytes.len();
    let ghost s = bytes@;
    let signed = n > 0 && (bytes[0] == 43 || bytes[0] == 45);
    let negative = n > 0 && bytes[0] == 45;
    let start: usize = if signed { 1 } else { 0 };
    let ghost digits = number_digits(s);
    assert(digits =~= s.subrange(start as int, n as int));
    if start == n {
        return Err(DecoderError::InvalidIntegerSyntax);
    }
    let mut acc: u64 = 0;
    let mut i: usize = start;
    while i < n
        invariant
            start <= i <= n,
            n == s.len(),
            s == bytes@,
            digits == s.subrange(start as int, n as int),
            digits == number_digits(s),
            digits.len() > 0,
            forall|j: int| 0 <= j < i - start ==> is_digit(#[trigger] digits[j]),
            acc as nat == decimal_value(digits.take(i - start)),
            acc <= 0x8000_0000_0000_0000,
        decreases n - i,
    {
        let b = bytes[i];
        assert(digits[i - start] == b);
        if b < 48 || b > 57 {
            assert(!is_digit(digits[i - start]));
            return Err(DecoderError::InvalidIntegerSyntax);
        }
        let next: u128 = acc as u128 * 10 + (b - 48) as u128;
        assert(digits.take(i - start + 1).drop_last() =~= digits.take(i - start));
        if next > 0x8000_0000_0000_0000 {
            proof {
                let k = i - start + 1;
                if forall|j: int| 0 <= j < digits.len() ==> is_digit(#[trigger] digits[j]) {
                    lemma_decimal_prefix_le(digits, k);
                }
            }
            return Err(DecoderError::InvalidIntegerSyntax);
        }
        acc = next as u64;
        i = i + 1;
    }
    assert(digits.take(i - start) =~= digits);
    if negative {
        if acc == 0x8000_0000_0000_0000 {
            Ok(i64::MIN)
        } else {
            Ok(-(acc as i64))
        }
    } else if acc > 0x7fff_ffff_ffff_ffff {
        Err(DecoderError::InvalidIntegerSyntax)
    } else {
        Ok(acc as i64)
    }
}

/// What the client's encoder writes, its decoder reads back: for every
/// value with 64-bit integers, sorted keys, nesting within the depth limit
/// and an encoding that fits in memory.
pub proof fn law_decode_inverts_encode(v: SpecBencode)
    requires
        well_formed(v),
        height(v) <= DEPTH_MAX,
        spec_encode(v).len() <= usize::MAX,
    ensures
        spec_protocol_decode(spec_encode(v)) == Ok::<SpecBencode, SpecDecoderError>(v),
{
    crate::bencode::laws::law_decode_inverts_encode(v);
}

} // verus!
