//! Hex encoding and decoding.
//!
//! BitTorrent writes infohashes as hex in magnet links and anywhere a hash
//! is shown to a user. Twenty raw bytes become forty characters.

use vstd::prelude::*;
use vstd::string::{StringExecFns, StringSliceAdditionalSpecFns};

verus! {

/// Hex text could not be decoded.
#[derive(Debug)]
pub enum HexError {
    /// The input was not the length the caller required.
    WrongLength { expected: usize, got: usize },
    /// A byte outside `0-9`, `a-f` and `A-F` appeared.
    InvalidCharacter(char),
}

/// The value of a hex digit in either case, or `None` for any other byte.
pub open spec fn hex_digit(b: u8) -> Option<u8> {
    if 48 <= b <= 57 {
        Some((b - 48) as u8)
    } else if 97 <= b <= 102 {
        Some((b - 87) as u8)
    } else if 65 <= b <= 70 {
        Some((b - 55) as u8)
    } else {
        None
    }
}

/// Convert one hex character to its value, 0 through 15.
pub fn hex_value(byte: u8) -> (r: Result<u8, HexError>)
    ensures
        match hex_digit(byte) {
            Some(v) => r == Ok::<u8, HexError>(v),
            None => r == Err::<u8, HexError>(HexError::InvalidCharacter(byte as char)),
        },
{
    if byte >= 48 && byte <= 57 {
        Ok(byte - 48)
    } else if byte >= 97 && byte <= 102 {
        Ok(byte - 87)
    } else if byte >= 65 && byte <= 70 {
        Ok(byte - 55)
    } else {
        Err(HexError::InvalidCharacter(byte as char))
    }
}

/// The bytes that hex text `s` spells, two characters per byte with the
/// high nibble first (every character of `s` a hex digit, `s` even).
pub open spec fn hex_bytes(s: Seq<u8>) -> Seq<u8> {
    Seq::new(
        s.len() / 2,
        |i: int| (hex_digit(s[2 * i])->0 * 16 + hex_digit(s[2 * i + 1])->0) as u8,
    )
}

/// What [`decode_hex_array`] gives for the text `s` and `n` output bytes:
/// the length is checked first, then the first non-hex character is
/// reported, else the bytes.
pub open spec fn spec_decode_hex(s: Seq<u8>, n: nat) -> Result<Seq<u8>, HexError> {
    if s.len() != 2 * n {
        Err(HexError::WrongLength { expected: (2 * n) as usize, got: s.len() as usize })
    } else if exists|i: int| 0 <= i < s.len() && hex_digit(#[trigger] s[i]) is None {
        let j = choose|j: int|
            0 <= j < s.len() && hex_digit(#[trigger] s[j]) is None && forall|k: int|
                0 <= k < j ==> hex_digit(#[trigger] s[k]) is Some;
        Err(HexError::InvalidCharacter(s[j] as char))
    } else {
        Ok(hex_bytes(s))
    }
}

/// Decode hex text into exactly `N` bytes.
pub fn decode_hex_array<const N: usize>(s: &str) -> (r: Result<[u8; N], HexError>)
    requires
        N <= usize::MAX / 2,
    ensures
        match spec_decode_hex(s.spec_bytes(), N as nat) {
            Ok(b) => r is Ok && r->Ok_0@ == b,
            Err(e) => r is Err && r->Err_0 == e,
        },
{
    let bytes = s.as_bytes();
    let expected = N * 2;
    if bytes.len() != expected {
        return Err(HexError::WrongLength { expected, got: bytes.len() });
    }
    let mut out = [0u8; N];
    let mut i: usize = 0;
    while i < N
        invariant
            i <= N,
            bytes@ == s.spec_bytes(),
            bytes@.len() == 2 * N,
            N <= usize::MAX / 2,
            forall|k: int| 0 <= k < 2 * i ==> hex_digit(#[trigger] bytes@[k]) is Some,
            forall|k: int|
                0 <= k < i ==> out@[k] == (hex_digit(bytes@[2 * k])->0 * 16 + hex_digit(
                    bytes@[2 * k + 1],
                )->0) as u8,
        decreases N - i,
    {
        let high = match hex_value(bytes[2 * i]) {
            Ok(v) => v,
            Err(e) => {
                proof {
                    lemma_first_invalid(bytes@, (2 * i) as int);
                }
                return Err(e);
            },
        };
        let low = match hex_value(bytes[2 * i + 1]) {
            Ok(v) => v,
            Err(e) => {
                proof {
                    lemma_first_invalid(bytes@, (2 * i + 1) as int);
                }
                return Err(e);
            },
        };
        out[i] = high * 16 + low;
        i = i + 1;
    }
    proof {
        assert(!exists|k: int| 0 <= k < bytes@.len() && hex_digit(#[trigger] bytes@[k]) is None);
        assert(out@ =~= hex_bytes(bytes@));
    }
    Ok(out)
}

/// When every character before `j` is a hex digit and the one at `j` is
/// not, `j` is the position the decoder reports.
proof fn lemma_first_invalid(s: Seq<u8>, j: int)
    requires
        0 <= j < s.len(),
        hex_digit(s[j]) is None,
        forall|k: int| 0 <= k < j ==> hex_digit(#[trigger] s[k]) is Some,
    ensures
        ({
            let c = choose|c: int|
                0 <= c < s.len() && hex_digit(#[trigger] s[c]) is None && forall|k: int|
                    0 <= k < c ==> hex_digit(#[trigger] s[k]) is Some;
            c == j
        }),
{
    let c = choose|c: int|
        0 <= c < s.len() && hex_digit(#[trigger] s[c]) is None && forall|k: int|
            0 <= k < c ==> hex_digit(#[trigger] s[k]) is Some;
    assert(0 <= j < s.len() && hex_digit(s[j]) is None && forall|k: int|
        0 <= k < j ==> hex_digit(#[trigger] s[k]) is Some);
    if c < j {
        assert(hex_digit(s[c]) is Some);
    } else if c > j {
        assert(hex_digit(s[j]) is Some);
    }
}

/// The lowercase hex digit for a value below sixteen.
pub open spec fn hex_char(v: nat) -> char {
    if v < 10 {
        ((v + 48) as u8) as char
    } else {
        ((v + 87) as u8) as char
    }
}

/// Lowercase hex text: two characters per byte, high nibble first.
pub open spec fn hex_text(bytes: Seq<u8>) -> Seq<char>
    decreases bytes.len(),
{
    if bytes.len() == 0 {
        Seq::empty()
    } else {
        hex_text(bytes.drop_last()).push(hex_char(bytes.last() as nat / 16)).push(
            hex_char(bytes.last() as nat % 16),
        )
    }
}

/// The one-character text of a hex digit.
fn hex_digit_str(v: u8) -> (s: &'static str)
    requires
        v < 16,
    ensures
        s@ == seq![hex_char(v as nat)],
{
    proof {
        reveal_strlit("0");
        reveal_strlit("1");
        reveal_strlit("2");
        reveal_strlit("3");
        reveal_strlit("4");
        reveal_strlit("5");
        reveal_strlit("6");
        reveal_strlit("7");
        reveal_strlit("8");
        reveal_strlit("9");
        reveal_strlit("a");
        reveal_strlit("b");
        reveal_strlit("c");
        reveal_strlit("d");
        reveal_strlit("e");
        reveal_strlit("f");
    }
    match v {
        0 => "0",
        1 => "1",
        2 => "2",
        3 => "3",
        4 => "4",
        5 => "5",
        6 => "6",
        7 => "7",
        8 => "8",
        9 => "9",
        10 => "a",
        11 => "b",
        12 => "c",
        13 => "d",
        14 => "e",
        _ => "f",
    }
}

/// Encode bytes as lowercase hex text.
pub fn to_hex(bytes: &[u8]) -> (out: String)
    ensures
        out@ == hex_text(bytes@),
{
    let mut out = String::new();
    let mut i: usize = 0;
    while i < bytes.len()
        invariant
            i <= bytes@.len(),
            out@ == hex_text(bytes@.take(i as int)),
        decreases bytes@.len() - i,
    {
        let byte = bytes[i];
        out.append(hex_digit_str(byte / 16));
        out.append(hex_digit_str(byte % 16));
        assert(bytes@.take(i + 1).drop_last() =~= bytes@.take(i as int));
        i = i + 1;
    }
    assert(bytes@.take(i as int) =~= bytes@);
    out
}

/// The bytes of hex text written by [`to_hex`] (all of it ASCII).
pub open spec fn hex_text_bytes(bytes: Seq<u8>) -> Seq<u8> {
    hex_text(bytes).map_values(|c: char| c as u8)
}

proof fn lemma_hex_text_digits(bytes: Seq<u8>)
    ensures
        hex_text(bytes).len() == 2 * bytes.len(),
        forall|i: int|
            0 <= i < bytes.len() ==> #[trigger] hex_text(bytes)[2 * i] == hex_char(bytes[i] as nat / 16)
                && hex_text(bytes)[2 * i + 1] == hex_char(bytes[i] as nat % 16),
    decreases bytes.len(),
{
    if bytes.len() > 0 {
        let t = bytes.drop_last();
        lemma_hex_text_digits(t);
        assert forall|i: int| 0 <= i < bytes.len() implies #[trigger] hex_text(bytes)[2 * i] == hex_char(
            bytes[i] as nat / 16,
        ) && hex_text(bytes)[2 * i + 1] == hex_char(bytes[i] as nat % 16) by {
            if i < t.len() {
                assert(t[i] == bytes[i]);
                assert(hex_text(t)[2 * i] == hex_char(t[i] as nat / 16));
            }
        }
    }
}

proof fn lemma_hex_char_digit(v: nat)
    requires
        v < 16,
    ensures
        hex_digit(hex_char(v) as u8) == Some(v as u8),
{
}

proof fn lemma_hex_text_bytes(bytes: Seq<u8>)
    ensures
        hex_text_bytes(bytes).len() == 2 * bytes.len(),
        forall|i: int|
            0 <= i < bytes.len() ==> hex_digit(#[trigger] hex_text_bytes(bytes)[2 * i]) == Some((bytes[i] / 16) as u8),
        forall|i: int|
            0 <= i < bytes.len() ==> hex_digit(#[trigger] hex_text_bytes(bytes)[2 * i + 1]) == Some(
                (bytes[i] % 16) as u8,
            ),
{
    lemma_hex_text_digits(bytes);
    let t = hex_text_bytes(bytes);
    assert forall|i: int| 0 <= i < bytes.len() implies hex_digit(#[trigger] t[2 * i]) == Some((bytes[i] / 16) as u8) by {
        assert(t[2 * i] == hex_text(bytes)[2 * i] as u8);
        lemma_hex_char_digit(bytes[i] as nat / 16);
    }
    assert forall|i: int| 0 <= i < bytes.len() implies hex_digit(#[trigger] t[2 * i + 1]) == Some(
        (bytes[i] % 16) as u8,
    ) by {
        assert(hex_text(bytes)[2 * i] == hex_char(bytes[i] as nat / 16));
        assert(t[2 * i + 1] == hex_text(bytes)[2 * i + 1] as u8);
        lemma_hex_char_digit(bytes[i] as nat % 16);
    }
}

/// Hex text decodes back to the bytes it was written from.
pub proof fn law_hex_round_trip(bytes: Seq<u8>)
    ensures
        spec_decode_hex(hex_text_bytes(bytes), bytes.len()) == Ok::<Seq<u8>, HexError>(bytes),
{
    lemma_hex_text_bytes(bytes);
    let t = hex_text_bytes(bytes);
    assert forall|k: int| 0 <= k < t.len() implies hex_digit(#[trigger] t[k]) is Some by {
        let i = k / 2;
        if k % 2 == 0 {
            assert(t[2 * i] == t[k]);
        } else {
            assert(t[2 * i + 1] == t[k]);
        }
    }
    assert forall|i: int| 0 <= i < bytes.len() implies #[trigger] hex_bytes(t)[i] == bytes[i] by {
        let hi = hex_digit(t[2 * i])->0;
        let lo = hex_digit(t[2 * i + 1])->0;
        assert(hi == bytes[i] / 16 && lo == bytes[i] % 16);
        assert(hi * 16 + lo == bytes[i]);
    }
    assert(hex_bytes(t) =~= bytes);
}

/// A hex digit in lowercase: letters `A`-`F` become `a`-`f`.
pub open spec fn lower_hex(c: u8) -> u8 {
    if 65 <= c <= 70 {
        (c + 32) as u8
    } else {
        c
    }
}

/// Hex text is twice as long as the bytes it writes, and made only of the
/// digits `0`-`9` and the lowercase letters `a`-`f`.
pub proof fn law_hex_text_shape(bytes: Seq<u8>)
    ensures
        hex_text(bytes).len() == 2 * bytes.len(),
        forall|k: int|
            0 <= k < hex_text(bytes).len() ==> ('0' <= #[trigger] hex_text(bytes)[k] <= '9') || ('a'
                <= hex_text(bytes)[k] <= 'f'),
{
    lemma_hex_text_digits(bytes);
    assert forall|k: int| 0 <= k < hex_text(bytes).len() implies ('0' <= #[trigger] hex_text(bytes)[k] <= '9')
        || ('a' <= hex_text(bytes)[k] <= 'f') by {
        let i = k / 2;
        if k % 2 == 0 {
            assert(hex_text(bytes)[2 * i] == hex_char(bytes[i] as nat / 16));
        } else {
            assert(hex_text(bytes)[2 * i] == hex_char(bytes[i] as nat / 16));
            assert(hex_text(bytes)[2 * i + 1] == hex_char(bytes[i] as nat % 16));
        }
    }
}

proof fn lemma_digit_char_lower(c: u8)
    requires
        hex_digit(c) is Some,
    ensures
        hex_char(hex_digit(c)->0 as nat) as u8 == lower_hex(c),
{
}

/// Writing decoded hex back gives the text that was decoded, with its
/// letters in lowercase.
pub proof fn law_hex_rewrites_decoded_text(text: Seq<u8>, n: nat)
    ensures
        spec_decode_hex(text, n) matches Ok(b) ==> hex_text_bytes(b) == text.map_values(|c: u8| lower_hex(c)),
{
    if let Ok(b) = spec_decode_hex(text, n) {
        assert(forall|k: int| 0 <= k < text.len() ==> hex_digit(#[trigger] text[k]) is Some);
        lemma_hex_text_digits(b);
        let t = hex_text_bytes(b);
        assert forall|k: int| 0 <= k < t.len() implies #[trigger] t[k] == lower_hex(text[k]) by {
            let i = k / 2;
            let hi = hex_digit(text[2 * i])->0;
            let lo = hex_digit(text[2 * i + 1])->0;
            assert(b[i] == (hi * 16 + lo) as u8);
            assert(b[i] as nat / 16 == hi && b[i] as nat % 16 == lo);
            lemma_digit_char_lower(text[2 * i]);
            lemma_digit_char_lower(text[2 * i + 1]);
            if k % 2 == 0 {
                assert(hex_text(b)[2 * i] == hex_char(b[i] as nat / 16));
                assert(t[2 * i] == hex_text(b)[2 * i] as u8);
            } else {
                assert(hex_text(b)[2 * i] == hex_char(b[i] as nat / 16));
                assert(hex_text(b)[2 * i + 1] == hex_char(b[i] as nat % 16));
                assert(t[2 * i + 1] == hex_text(b)[2 * i + 1] as u8);
            }
        }
        assert(t =~= text.map_values(|c: u8| lower_hex(c)));
    }
}

/// The value a lowercase hex character stands for: `0`-`9` for 0 to 9,
/// `a`-`f` for 10 to 15.
pub open spec fn lower_hex_value(c: char) -> int {
    if '0' <= c <= '9' {
        c as int - 48
    } else {
        c as int - 87
    }
}

/// Hex text spells its bytes: for byte `i`, character `2 * i` is its high
/// four bits and character `2 * i + 1` its low four bits, so that
/// `16 * high + low` is the byte.
pub proof fn law_hex_text_spells_the_bytes(bytes: Seq<u8>)
    ensures
        hex_text(bytes).len() == 2 * bytes.len(),
        forall|i: int|
            0 <= i < bytes.len() ==> {
                &&& 0 <= lower_hex_value(#[trigger] hex_text(bytes)[2 * i]) < 16
                &&& 0 <= lower_hex_value(hex_text(bytes)[2 * i + 1]) < 16
                &&& 16 * lower_hex_value(hex_text(bytes)[2 * i]) + lower_hex_value(hex_text(bytes)[2 * i + 1]) == bytes[i]
            },
{
    lemma_hex_text_digits(bytes);
    assert forall|i: int| 0 <= i < bytes.len() implies {
        &&& 0 <= lower_hex_value(#[trigger] hex_text(bytes)[2 * i]) < 16
        &&& 0 <= lower_hex_value(hex_text(bytes)[2 * i + 1]) < 16
        &&& 16 * lower_hex_value(hex_text(bytes)[2 * i]) + lower_hex_value(hex_text(bytes)[2 * i + 1]) == bytes[i]
    } by {
        let hi = bytes[i] as nat / 16;
        let lo = bytes[i] as nat % 16;
        assert(lower_hex_value(hex_char(hi)) == hi);
        assert(lower_hex_value(hex_char(lo)) == lo);
    }
}

/// Decoding reads each pair of characters as one byte, high four bits
/// first, taking `0`-`9`, `a`-`f` and `A`-`F` as hex digits: byte `i` is
/// `16 * value(text[2 * i]) + value(text[2 * i + 1])`, and it succeeds only
/// on text of exactly two characters per byte, all of them hex digits.
pub proof fn law_decoded_hex_reads_pairs(text: Seq<u8>, n: nat)
    ensures
        spec_decode_hex(text, n) matches Ok(b) ==> {
            &&& b.len() == n && text.len() == 2 * n
            &&& forall|k: int| 0 <= k < text.len() ==> (48 <= #[trigger] text[k] <= 57 || 97 <= text[k] <= 102 || 65 <= text[k] <= 70)
            &&& forall|i: int| 0 <= i < n ==> #[trigger] b[i] == 16 * lower_hex_value(lower_hex(text[2 * i]) as char)
                + lower_hex_value(lower_hex(text[2 * i + 1]) as char)
        },
{
    if let Ok(b) = spec_decode_hex(text, n) {
        assert forall|k: int| 0 <= k < text.len() implies (48 <= #[trigger] text[k] <= 57 || 97 <= text[k] <= 102 || 65 <= text[k] <= 70) by {
            assert(hex_digit(text[k]) is Some);
        }
        assert forall|i: int| 0 <= i < n implies #[trigger] b[i] == 16 * lower_hex_value(lower_hex(text[2 * i]) as char)
            + lower_hex_value(lower_hex(text[2 * i + 1]) as char) by {
            assert(hex_digit(text[2 * i]) is Some);
            assert(hex_digit(text[2 * i + 1]) is Some);
            assert(lower_hex_value(lower_hex(text[2 * i]) as char) == hex_digit(text[2 * i])->0);
            assert(lower_hex_value(lower_hex(text[2 * i + 1]) as char) == hex_digit(text[2 * i + 1])->0);
        }
    }
}

} // verus!
