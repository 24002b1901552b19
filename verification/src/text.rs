//! Turning raw bytes into text, through the standard library's UTF-8
//! conversions.

use vstd::prelude::*;
use vstd::string::StrSliceExecFns;
use vstd::utf8::{decode_utf8, valid_utf8};

use crate::bencode::encoder::nat_text;

verus! {

/// The text `String::from_utf8_lossy` makes of `bytes`: valid UTF-8 decoded
/// as is, every invalid sequence replaced by U+FFFD.
pub uninterp spec fn lossy_utf8(bytes: Seq<u8>) -> Seq<char>;

/// Calls `String::from_utf8_lossy` and takes ownership of the result.
///
/// Trusted: the result is `lossy_utf8(bytes)`, and when `bytes` is valid
/// UTF-8 it is exactly the decoded text (the standard library documents that
/// valid input comes back unchanged).
#[verifier::external_body]
pub(crate) fn string_from_utf8_lossy(bytes: &[u8]) -> (s: String)
    ensures
        s@ == lossy_utf8(bytes@),
        valid_utf8(bytes@) ==> s@ == decode_utf8(bytes@),
{
    String::from_utf8_lossy(bytes).into_owned()
}

/// Calls `String::from_utf8`, keeping only whether it succeeded.
///
/// Trusted: it succeeds exactly when `bytes` is valid UTF-8, and the text
/// is then the decoded `bytes`.
#[verifier::external_body]
pub(crate) fn string_from_utf8(bytes: Vec<u8>) -> (r: Option<String>)
    ensures
        r is Some <==> valid_utf8(bytes@),
        r matches Some(s) ==> s@ == decode_utf8(bytes@),
{
    String::from_utf8(bytes).ok()
}

/// The text `str::to_uppercase` makes of `chars`, by Unicode's case
/// mappings.
pub uninterp spec fn uppercase(chars: Seq<char>) -> Seq<char>;

/// Calls `str::to_uppercase`.
///
/// Trusted: the result is `uppercase` of the text, a function of the text
/// alone.
#[verifier::external_body]
pub(crate) fn str_to_uppercase(s: &str) -> (r: String)
    ensures
        r@ == uppercase(s@),
{
    s.to_uppercase()
}

/// Collects characters into a `String` (`FromIterator<&char>`).
///
/// Trusted: the text is the characters in order.
#[verifier::external_body]
pub(crate) fn string_from_chars(chars: &Vec<char>) -> (r: String)
    ensures
        r@ == chars@,
{
    String::from_iter(chars.iter())
}

/// Calls `char::to_string`.
///
/// Trusted: the text is the one character.
#[verifier::external_body]
pub(crate) fn char_to_string(c: char) -> (r: String)
    ensures
        r@ == seq![c],
{
    c.to_string()
}

/// The characters of a run of ASCII bytes.
pub open spec fn ascii_chars(b: Seq<u8>) -> Seq<char> {
    b.map_values(|x: u8| x as char)
}

/// Append the characters of `cs`.
pub(crate) fn push_chars(out: &mut Vec<char>, cs: &[char])
    ensures
        final(out)@ == old(out)@ + cs@,
{
    let ghost start = out@;
    let mut i: usize = 0;
    while i < cs.len()
        invariant
            i <= cs@.len(),
            out@ == start + cs@.take(i as int),
        decreases cs@.len() - i,
    {
        out.push(cs[i]);
        assert(cs@.take(i + 1) =~= cs@.take(i as int).push(cs@[i as int]));
        i = i + 1;
    }
    assert(cs@.take(i as int) =~= cs@);
}

/// Append the first `k` characters of `s`.
pub(crate) fn push_prefix(out: &mut Vec<char>, s: &str, k: usize)
    requires
        k <= s@.len(),
    ensures
        final(out)@ == old(out)@ + s@.take(k as int),
{
    let ghost start = out@;
    let mut i: usize = 0;
    while i < k
        invariant
            i <= k,
            k <= s@.len(),
            out@ == start + s@.take(i as int),
        decreases k - i,
    {
        let c = s.get_char(i);
        out.push(c);
        assert(s@.take(i + 1) =~= s@.take(i as int).push(s@[i as int]));
        i = i + 1;
    }
}

/// Append the decimal digits of `n`.
pub(crate) fn push_decimal_chars(n: u64, out: &mut Vec<char>)
    ensures
        final(out)@ == old(out)@ + ascii_chars(nat_text(n as nat)),
    decreases n,
{
    if n >= 10 {
        push_decimal_chars(n / 10, out);
    }
    let d: u8 = (n % 10) as u8 + 48;
    out.push(d as char);
    assert(nat_text(n as nat) == if n < 10 {
        seq![((n as nat) + 48) as u8]
    } else {
        nat_text((n / 10) as nat).push(((n % 10) as nat + 48) as u8)
    });
    assert(final(out)@ =~= old(out)@ + ascii_chars(nat_text(n as nat)));
}

/// `n` in decimal.
pub(crate) fn decimal_string(n: u64) -> (s: String)
    ensures
        s@ == ascii_chars(nat_text(n as nat)),
{
    let mut out: Vec<char> = Vec::new();
    push_decimal_chars(n, &mut out);
    assert(out@ =~= ascii_chars(nat_text(n as nat)));
    string_from_chars(&out)
}

} // verus!
