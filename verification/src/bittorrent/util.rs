//! Shared helpers for reading torrent metadata.
//!
//! Mostly small wrappers around bencode dictionary lookups, plus the path
//! validation that keeps a hostile torrent from writing outside its download
//! directory.

use vstd::prelude::*;
use vstd::string::StringSliceAdditionalSpecFns;

use crate::bencode::spec::{dict_get, SpecBencode};
use crate::bencode::value::{kind_name, Bencode, Dictionary};
use crate::text::{lossy_utf8, string_from_utf8_lossy};

use super::hex::{hex_digit, hex_value};
use super::metainfo::{MetainfoError, SpecMetainfoError};

verus! {

/// Look up a key the format requires.
pub fn get_key<'a>(dict: &'a Dictionary<'a>, key: &'static str) -> (r: Result<&'a Bencode<'a>, MetainfoError>)
    ensures
        match dict_get(dict@, key.spec_bytes()) {
            Some(v) => r is Ok && r->Ok_0@ == v,
            None => r is Err && r->Err_0@ == SpecMetainfoError::KeyNotFound(key@),
        },
{
    match dict.get(key.as_bytes()) {
        Some(v) => Ok(v),
        None => Err(MetainfoError::KeyNotFound(key)),
    }
}

/// Look up a key the format allows to be absent.
pub fn get_opt<'a>(dict: &'a Dictionary<'a>, key: &'static str) -> (r: Option<&'a Bencode<'a>>)
    ensures
        match dict_get(dict@, key.spec_bytes()) {
            Some(v) => r is Some && r->0@ == v,
            None => r is None,
        },
{
    dict.get(key.as_bytes())
}

/// What [`get_opt_string_lossy`] gives for a dictionary and key.
pub open spec fn spec_opt_string_lossy(
    dict: Seq<(Seq<u8>, SpecBencode)>,
    key: Seq<u8>,
) -> Result<Option<Seq<char>>, SpecMetainfoError> {
    match dict_get(dict, key) {
        None => Ok(None),
        Some(SpecBencode::Str(b)) => Ok(Some(lossy_utf8(b))),
        Some(v) => Err(SpecMetainfoError::WrongType { want: "string"@, got: kind_name(v) }),
    }
}

/// Look up an optional key and read it as text, lossily.
///
/// A missing key gives `Ok(None)`; a present key that is not a byte string
/// is an error.
pub fn get_opt_string_lossy<'a>(dict: &'a Dictionary<'a>, key: &'static str) -> (r: Result<
    Option<String>,
    MetainfoError,
>)
    ensures
        match spec_opt_string_lossy(dict@, key.spec_bytes()) {
            Ok(None) => r == Ok::<Option<String>, MetainfoError>(None),
            Ok(Some(t)) => r is Ok && r->Ok_0 is Some && r->Ok_0->0@ == t,
            Err(e) => r is Err && r->Err_0@ == e,
        },
{
    match dict.get(key.as_bytes()) {
        Some(value) => match value.as_bytes() {
            Ok(bytes) => Ok(Some(string_from_utf8_lossy(bytes))),
            Err(e) => Err(MetainfoError::BencodeError(e)),
        },
        None => Ok(None),
    }
}

/// A path component that cannot escape the download directory: non-empty,
/// neither `.` nor `..`, with no `/`, `\` or null byte.
pub open spec fn safe_component(c: Seq<u8>) -> bool {
    &&& c.len() > 0
    &&& c != seq![46u8]
    &&& c != seq![46u8, 46u8]
    &&& !c.contains(47u8)
    &&& !c.contains(92u8)
    &&& !c.contains(0u8)
}

/// Reject a path component that could escape the download directory.
///
/// The whole torrent is rejected rather than sanitised: rewriting a path
/// silently could collapse two files onto one another.
pub fn check_path_component(component: &[u8]) -> (r: Result<(), MetainfoError>)
    ensures
        safe_component(component@) ==> r is Ok,
        !safe_component(component@) ==> r is Err && r->Err_0@ == SpecMetainfoError::InvalidPath,
{
    let n = component.len();
    if n == 0 {
        return Err(MetainfoError::InvalidPath);
    }
    if n == 1 && component[0] == 46 {
        assert(component@ =~= seq![46u8]);
        return Err(MetainfoError::InvalidPath);
    }
    if n == 2 && component[0] == 46 && component[1] == 46 {
        assert(component@ =~= seq![46u8, 46u8]);
        return Err(MetainfoError::InvalidPath);
    }
    let mut i: usize = 0;
    while i < n
        invariant
            n == component@.len(),
            i <= n,
            forall|j: int| 0 <= j < i ==> component@[j] != 47u8 && component@[j] != 92u8 && component@[j] != 0u8,
        decreases n - i,
    {
        let b = component[i];
        if b == 47 || b == 92 || b == 0 {
            return Err(MetainfoError::InvalidPath);
        }
        i = i + 1;
    }
    proof {
        if n == 1 {
            assert(component@ != seq![46u8, 46u8]);
            if component@ == seq![46u8] {
                assert(component@[0] == 46u8);
            }
        }
        if n == 2 && component@ == seq![46u8, 46u8] {
            assert(component@[0] == 46u8);
        }
        assert(!component@.contains(47u8));
        assert(!component@.contains(92u8));
        assert(!component@.contains(0u8));
    }
    Ok(())
}

/// Read a bencode integer as an unsigned size.
///
/// Bencode integers are signed, so this is where a negative length is caught.
pub fn as_u64(value: &Bencode) -> (r: Result<u64, MetainfoError>)
    ensures
        match value@ {
            SpecBencode::Int(n) => if n >= 0 {
                r == Ok::<u64, MetainfoError>(n as u64)
            } else {
                r is Err && r->Err_0@ == SpecMetainfoError::NegativeLength
            },
            v => r is Err && r->Err_0@ == SpecMetainfoError::WrongType {
                want: "integer"@,
                got: kind_name(v),
            },
        },
{
    match value.as_i64() {
        Ok(n) => if n >= 0 {
            Ok(n as u64)
        } else {
            Err(MetainfoError::NegativeLength)
        },
        Err(e) => Err(MetainfoError::BencodeError(e)),
    }
}

/// Percent-decoding with `+` meaning space, as magnet links use it.
///
/// A `%` that is not followed by two hex digits is kept literally.
pub open spec fn spec_percent_decode(s: Seq<u8>) -> Seq<u8>
    decreases s.len(),
{
    if s.len() == 0 {
        Seq::empty()
    } else if s[0] == 43 {
        seq![32u8] + spec_percent_decode(s.drop_first())
    } else if s[0] == 37 && s.len() >= 3 && hex_digit(s[1]) is Some && hex_digit(s[2]) is Some {
        seq![(hex_digit(s[1])->0 * 16 + hex_digit(s[2])->0) as u8] + spec_percent_decode(s.skip(3))
    } else {
        seq![s[0]] + spec_percent_decode(s.drop_first())
    }
}

/// Decode percent-encoding, including the `+` means space convention.
///
/// Decoding is lenient: a malformed escape such as `%ZZ`, or a `%` too close
/// to the end, is kept literally rather than dropped.
pub fn percent_decode(s: &str) -> (decoded: Vec<u8>)
    ensures
        decoded@ == spec_percent_decode(s.spec_bytes()),
{
    let bytes = s.as_bytes();
    let ghost b = bytes@;
    let mut decoded: Vec<u8> = Vec::with_capacity(bytes.len());
    let mut i: usize = 0;
    assert(b.skip(0) =~= b);
    while i < bytes.len()
        invariant
            b == bytes@,
            i <= b.len(),
            spec_percent_decode(b) == decoded@ + spec_percent_decode(b.skip(i as int)),
        decreases b.len() - i,
    {
        let ghost rest = b.skip(i as int);
        let ghost before = decoded@;
        let byte = bytes[i];
        assert(rest[0] == byte);
        if byte == 43 {
            decoded.push(32);
            assert(rest.drop_first() =~= b.skip(i + 1));
            i = i + 1;
        } else if byte == 37 && bytes.len() - i > 2 && hex_value(bytes[i + 1]).is_ok()
            && hex_value(bytes[i + 2]).is_ok() {
            let high = match hex_value(bytes[i + 1]) {
                Ok(v) => v,
                Err(_) => 0,
            };
            let low = match hex_value(bytes[i + 2]) {
                Ok(v) => v,
                Err(_) => 0,
            };
            assert(rest[1] == b[i + 1] && rest[2] == b[i + 2]);
            decoded.push(high * 16 + low);
            assert(rest.skip(3) =~= b.skip(i + 3));
            i = i + 3;
        } else {
            proof {
                if byte == 37 && i + 2 < b.len() {
                    assert(rest[1] == b[i + 1] && rest[2] == b[i + 2]);
                }
            }
            decoded.push(byte);
            assert(rest.drop_first() =~= b.skip(i + 1));
            i = i + 1;
        }
        assert(decoded@ + spec_percent_decode(b.skip(i as int)) =~= before + spec_percent_decode(rest));
    }
    assert(b.skip(i as int) =~= Seq::<u8>::empty());
    assert(decoded@ + spec_percent_decode(b.skip(i as int)) =~= decoded@);
    decoded
}

/// The text of a path held as raw bytes, decoded lossily: names in torrent
/// files come in unknown encodings, and a path needs text.
pub fn to_path(bytes: &[u8]) -> (r: String)
    ensures
        r@ == lossy_utf8(bytes@),
{
    string_from_utf8_lossy(bytes)
}

/// Text with no `%` and no `+` decodes to itself.
pub proof fn law_plain_text_decodes_to_itself(s: Seq<u8>)
    requires
        forall|i: int| 0 <= i < s.len() ==> #[trigger] s[i] != 37u8 && s[i] != 43u8,
    ensures
        spec_percent_decode(s) == s,
    decreases s.len(),
{
    if s.len() > 0 {
        let t = s.drop_first();
        assert forall|i: int| 0 <= i < t.len() implies #[trigger] t[i] != 37u8 && t[i] != 43u8 by {
            assert(t[i] == s[i + 1]);
        }
        law_plain_text_decodes_to_itself(t);
        assert(seq![s[0]] + t =~= s);
    }
}

/// Decoding never lengthens text: each byte of the input gives at most one
/// byte of output.
pub proof fn law_decoding_never_grows(s: Seq<u8>)
    ensures
        spec_percent_decode(s).len() <= s.len(),
    decreases s.len(),
{
    if s.len() > 0 {
        law_decoding_never_grows(s.drop_first());
        if s.len() >= 3 {
            law_decoding_never_grows(s.skip(3));
        }
    }
}

/// The uppercase hex digit of a value below 16.
pub open spec fn upper_hex_digit(d: nat) -> u8 {
    if d < 10 {
        (48 + d) as u8
    } else {
        (55 + d) as u8
    }
}

/// Every byte written as a `%` escape: `%`, then its high and low hex
/// digits.
pub open spec fn escaped(b: Seq<u8>) -> Seq<u8>
    decreases b.len(),
{
    if b.len() == 0 {
        Seq::empty()
    } else {
        seq![37u8, upper_hex_digit(b[0] as nat / 16), upper_hex_digit(b[0] as nat % 16)] + escaped(b.drop_first())
    }
}

/// Percent-decoding undoes percent-encoding: any bytes, each written as a
/// `%` escape with two hex digits, decode back to themselves.
pub proof fn law_escapes_decode_to_their_bytes(b: Seq<u8>)
    ensures
        spec_percent_decode(escaped(b)) == b,
    decreases b.len(),
{
    if b.len() > 0 {
        let e = escaped(b);
        let rest = escaped(b.drop_first());
        let hi = b[0] as nat / 16;
        let lo = b[0] as nat % 16;
        assert(e == seq![37u8, upper_hex_digit(hi), upper_hex_digit(lo)] + rest);
        assert(e[0] == 37u8 && e[1] == upper_hex_digit(hi) && e[2] == upper_hex_digit(lo));
        assert(hex_digit(upper_hex_digit(hi)) == Some(hi as u8));
        assert(hex_digit(upper_hex_digit(lo)) == Some(lo as u8));
        assert(e.skip(3) =~= rest);
        law_escapes_decode_to_their_bytes(b.drop_first());
        assert((hi * 16 + lo) as u8 == b[0]);
        assert(seq![b[0]] + b.drop_first() =~= b);
    }
}

/// Text without `%` decodes to itself with every `+` turned into a space.
pub proof fn law_plus_means_space(s: Seq<u8>)
    requires
        forall|i: int| 0 <= i < s.len() ==> #[trigger] s[i] != 37u8,
    ensures
        spec_percent_decode(s) == s.map_values(|c: u8| if c == 43u8 { 32u8 } else { c }),
    decreases s.len(),
{
    if s.len() > 0 {
        let t = s.drop_first();
        assert forall|i: int| 0 <= i < t.len() implies #[trigger] t[i] != 37u8 by {
            assert(t[i] == s[i + 1]);
        }
        law_plus_means_space(t);
        let f = |c: u8| if c == 43u8 { 32u8 } else { c };
        assert(s.map_values(f) =~= seq![f(s[0])] + t.map_values(f));
    }
}

} // verus!
