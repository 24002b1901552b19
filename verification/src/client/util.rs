//! This client's peer id: a fixed tag, its version, and twelve letters and
//! digits drawn at random.

use vstd::prelude::*;
use vstd::string::StrSliceExecFns;


verus! {

/// The text between the dots of `s`: one more part than it has dots, an
/// empty text giving one empty part.
pub open spec fn dot_parts(s: Seq<char>) -> Seq<Seq<char>>
    decreases s.len(),
{
    if s.len() == 0 {
        seq![Seq::<char>::empty()]
    } else {
        let rest = dot_parts(s.drop_last());
        if s.last() == '.' {
            rest.push(Seq::empty())
        } else {
            rest.update(rest.len() - 1, rest.last().push(s.last()))
        }
    }
}

/// An ASCII decimal digit.
pub open spec fn is_digit_char(c: char) -> bool {
    '0' <= c <= '9'
}

/// The number that a run of decimal digits spells.
pub open spec fn digits_value(d: Seq<char>) -> nat
    decreases d.len(),
{
    if d.len() == 0 {
        0
    } else {
        digits_value(d.drop_last()) * 10 + (d.last() as nat - 48) as nat
    }
}

/// Every character of `d` is a decimal digit.
pub open spec fn all_digit_chars(d: Seq<char>) -> bool {
    forall|i: int| 0 <= i < d.len() ==> is_digit_char(#[trigger] d[i])
}

/// `f` without a leading `+`.
pub open spec fn unsigned_digits(f: Seq<char>) -> Seq<char> {
    if f.len() > 0 && f[0] == '+' {
        f.drop_first()
    } else {
        f
    }
}

/// A byte written in decimal, as `str::parse::<u8>` reads it: an optional
/// `+`, then one or more digits spelling at most 255.
pub open spec fn spec_parse_u8(f: Seq<char>) -> Option<u8> {
    let d = unsigned_digits(f);
    if d.len() == 0 || !all_digit_chars(d) || digits_value(d) > 255 {
        None
    } else {
        Some(digits_value(d) as u8)
    }
}

/// The four numbers of a dotted version, each 0 when its part is missing
/// or not a byte.
pub open spec fn version_bytes(s: Seq<char>) -> Seq<u8> {
    let parts = dot_parts(s);
    Seq::new(
        4,
        |j: int|
            if j < parts.len() {
                match spec_parse_u8(parts[j]) {
                    Some(b) => b,
                    None => 0u8,
                }
            } else {
                0u8
            },
    )
}

proof fn lemma_dot_parts_nonempty(s: Seq<char>)
    ensures
        dot_parts(s).len() >= 1,
    decreases s.len(),
{
    if s.len() > 0 {
        lemma_dot_parts_nonempty(s.drop_last());
    }
}

/// A longer run of digits never spells a smaller number.
proof fn lemma_digits_prefix_le(d: Seq<char>, k: int)
    requires
        0 <= k <= d.len(),
        forall|i: int| 0 <= i < d.len() ==> is_digit_char(#[trigger] d[i]),
    ensures
        digits_value(d.take(k)) <= digits_value(d),
    decreases d.len(),
{
    if k < d.len() {
        let t = d.drop_last();
        assert(t.take(k) =~= d.take(k));
        lemma_digits_prefix_le(t, k);
    } else {
        assert(d.take(k) =~= d);
    }
}

/// `str::parse::<u8>` on a part, written out.
fn parse_u8(f: &Vec<char>) -> (r: Option<u8>)
    ensures
        r == spec_parse_u8(f@),
{
    let n = f.len();
    let start: usize = if n > 0 && f[0] == '+' {
        1
    } else {
        0
    };
    let ghost d = unsigned_digits(f@);
    assert(d =~= f@.skip(start as int));
    if start == n {
        return None;
    }
    let mut value: u32 = 0;
    let mut i: usize = start;
    assert(d.take(0) =~= Seq::<char>::empty());
    while i < n
        invariant
            start <= i <= n,
            n == f@.len(),
            start < n,
            d == f@.skip(start as int),
            d == unsigned_digits(f@),
            value == digits_value(d.take(i - start)),
            value <= 255,
            forall|j: int| 0 <= j < i - start ==> is_digit_char(#[trigger] d[j]),
        decreases n - i,
    {
        let c = f[i];
        assert(d[i - start] == c);
        if !('0' <= c && c <= '9') {
            assert(!is_digit_char(d[i - start]));
            return None;
        }
        let digit = (c as u32) - 48;
        assert(d.take(i - start + 1).drop_last() =~= d.take(i - start));
        assert(digits_value(d.take(i - start + 1)) == value * 10 + digit);
        if value * 10 + digit > 255 {
            proof {
                if all_digit_chars(d) {
                    lemma_digits_prefix_le(d, i - start + 1);
                }
            }
            return None;
        }
        value = value * 10 + digit;
        i = i + 1;
    }
    assert(d.take(n - start) =~= d);
    Some(value as u8)
}

/// The parts of `s` between its dots.
fn split_dots(s: &str) -> (parts: Vec<Vec<char>>)
    ensures
        parts@.len() == dot_parts(s@).len(),
        forall|j: int| 0 <= j < parts@.len() ==> #[trigger] parts@[j]@ == dot_parts(s@)[j],
{
    let n = s.unicode_len();
    let mut parts: Vec<Vec<char>> = Vec::new();
    let mut current: Vec<char> = Vec::new();
    let mut i: usize = 0;
    assert(s@.take(0) =~= Seq::<char>::empty());
    while i < n
        invariant
            i <= n,
            n == s@.len(),
            parts@.len() + 1 == dot_parts(s@.take(i as int)).len(),
            forall|j: int| 0 <= j < parts@.len() ==> #[trigger] parts@[j]@ == dot_parts(s@.take(i as int))[j],
            current@ == dot_parts(s@.take(i as int)).last(),
        decreases n - i,
    {
        let c = s.get_char(i);
        let ghost t = s@.take(i + 1);
        assert(t.drop_last() =~= s@.take(i as int));
        assert(t.last() == c);
        proof {
            lemma_dot_parts_nonempty(s@.take(i as int));
        }
        if c == '.' {
            let mut finished: Vec<char> = Vec::new();
            std::mem::swap(&mut finished, &mut current);
            parts.push(finished);
        } else {
            current.push(c);
        }
        i = i + 1;
    }
    assert(s@.take(n as int) =~= s@);
    let ghost all = dot_parts(s@);
    parts.push(current);
    assert forall|j: int| 0 <= j < parts@.len() implies #[trigger] parts@[j]@ == all[j] by {}
    parts
}

/// The version's four numbers, as `major.minor.patch.extra`, each 0 when
/// missing or not a byte.
pub fn version_to_bytes(version: &str) -> (r: [u8; 4])
    ensures
        r@ == version_bytes(version@),
{
    let parts = split_dots(version);
    let mut r: [u8; 4] = [0; 4];
    let mut j: usize = 0;
    while j < 4
        invariant
            j <= 4,
            parts@.len() == dot_parts(version@).len(),
            forall|k: int| 0 <= k < parts@.len() ==> #[trigger] parts@[k]@ == dot_parts(version@)[k],
            forall|k: int| 0 <= k < j ==> #[trigger] r@[k] == version_bytes(version@)[k],
            forall|k: int| j <= k < 4 ==> #[trigger] r@[k] == 0,
        decreases 4 - j,
    {
        if j < parts.len() {
            let b = match parse_u8(&parts[j]) {
                Some(b) => b,
                None => 0,
            };
            r[j] = b;
        }
        j = j + 1;
    }
    assert(r@ =~= version_bytes(version@));
    r
}

/// An ASCII letter or digit.
pub open spec fn is_alphanumeric(b: u8) -> bool {
    (48 <= b <= 57) || (65 <= b <= 90) || (97 <= b <= 122)
}

/// The fixed part of a peer id: `-TF`, the four numbers of `version`, `-`.
pub open spec fn peer_id_prefix(version: Seq<char>) -> Seq<u8> {
    seq![45u8, 84u8, 70u8] + version_bytes(version) + seq![45u8]
}

/// Draws one byte from `rand`'s `Alphanumeric` distribution with the
/// thread-local generator.
///
/// Trusted: the byte is random; the distribution documents, and its source
/// shows, that it is always one of `A`-`Z`, `a`-`z`, `0`-`9`.
#[verifier::external_body]
fn draw_alphanumeric() -> (b: u8)
    ensures
        is_alphanumeric(b),
{
    rand::RngExt::sample(&mut rand::rng(), rand::distr::Alphanumeric)
}

/// A new peer id: `-TF`, the four numbers of `version`, `-`, then twelve
/// letters and digits drawn at random.
pub fn generate_peer_id(version: &str) -> (id: [u8; 20])
    ensures
        id@.take(8) == peer_id_prefix(version@),
        forall|i: int| 8 <= i < 20 ==> is_alphanumeric(#[trigger] id@[i]),
{
    let mut drawn: [u8; 12] = [0; 12];
    let mut i: usize = 0;
    while i < 12
        invariant
            i <= 12,
            forall|j: int| 0 <= j < i ==> is_alphanumeric(#[trigger] drawn@[j]),
        decreases 12 - i,
    {
        drawn[i] = draw_alphanumeric();
        i = i + 1;
    }
    let id = peer_id_from(version, &drawn);
    assert(id@.take(8) =~= peer_id_prefix(version@));
    assert forall|i: int| 8 <= i < 20 implies is_alphanumeric(#[trigger] id@[i]) by {
        assert(id@[i] == drawn@[i - 8]);
    }
    id
}

/// The peer id made of `-TF`, the four numbers of `version`, `-`, then the
/// twelve bytes `drawn`.
pub fn peer_id_from(version: &str, drawn: &[u8; 12]) -> (id: [u8; 20])
    ensures
        id@ == seq![45u8, 84u8, 70u8] + version_bytes(version@) + seq![45u8] + drawn@,
{
    let mut peer_id: [u8; 20] = [0; 20];
    peer_id[0] = 45;
    peer_id[1] = 84;
    peer_id[2] = 70;
    let vb = version_to_bytes(version);
    let mut k: usize = 0;
    while k < 4
        invariant
            k <= 4,
            peer_id@[0] == 45u8 && peer_id@[1] == 84u8 && peer_id@[2] == 70u8,
            forall|i: int| 0 <= i < k ==> #[trigger] peer_id@[3 + i] == vb@[i],
        decreases 4 - k,
    {
        peer_id[3 + k] = vb[k];
        k = k + 1;
    }
    peer_id[7] = 45;
    let mut i: usize = 8;
    while i < 20
        invariant
            8 <= i <= 20,
            peer_id@[0] == 45u8 && peer_id@[1] == 84u8 && peer_id@[2] == 70u8,
            forall|j: int| 0 <= j < 4 ==> #[trigger] peer_id@[3 + j] == vb@[j],
            peer_id@[7] == 45u8,
            forall|j: int| 8 <= j < i ==> #[trigger] peer_id@[j] == drawn@[j - 8],
        decreases 20 - i,
    {
        peer_id[i] = drawn[i - 8];
        i = i + 1;
    }
    assert forall|j: int| 0 <= j < 20 implies #[trigger] peer_id@[j] == (seq![45u8, 84u8, 70u8] + vb@
        + seq![45u8] + drawn@)[j] by {
        if 3 <= j < 7 {
            assert(peer_id@[3 + (j - 3)] == vb@[j - 3]);
        }
    }
    assert(peer_id@ =~= seq![45u8, 84u8, 70u8] + vb@ + seq![45u8] + drawn@);
    peer_id
}

} // verus!
