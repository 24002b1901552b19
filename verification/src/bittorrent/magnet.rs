//! Parsing magnet links.
//!
//! A magnet link identifies a torrent without carrying its metadata: the
//! infohash, and optionally a name, some trackers and peer hints. Unknown
//! parameters are ignored, and so are peer hints that are not socket
//! addresses: they are optional shortcuts. Only a missing or unusable
//! infohash fails the parse.

use vstd::prelude::*;
use vstd::string::StringSliceAdditionalSpecFns;
use vstd::utf8::{
    decode_utf8, encode_utf8, encode_utf8_decode_utf8, encode_utf8_valid_utf8, is_char_boundary,
    is_char_boundary_iff_not_is_continuation_byte, is_char_boundary_start_end_of_seq,
    pop_first_scalar, valid_utf8, valid_utf8_split,
};

use super::hex::{
    decode_hex_array, hex_text, hex_text_bytes, law_hex_round_trip, law_hex_text_shape, spec_decode_hex, HexError,
};
use super::util::{percent_decode, spec_percent_decode};
use crate::text::{str_to_uppercase, string_from_utf8, uppercase};

verus! {

/// A magnet link could not be parsed.
#[derive(Debug)]
pub enum MagnetError {
    /// The string did not begin with `magnet:?`.
    InvalidMagnetPrefix,
    /// The `xt` parameter identified something other than a BitTorrent
    /// torrent.
    NotBittorrentHash,
    /// No `xt` parameter was present.
    MissingXt,
    /// The infohash was 32 characters but not valid base32.
    InvalidBase32,
    /// The infohash was neither 40 nor 32 characters long.
    InvalidHashLength,
    /// The infohash was 40 characters but contained a non-hex character.
    Hex(HexError),
}

/// A parsed magnet link.
///
/// Only `info_hash` is guaranteed to be meaningful; the other fields are
/// hints, empty when the link had none.
#[derive(Debug)]
pub struct Magnet {
    /// The torrent's 20-byte identity.
    pub info_hash: [u8; 20],
    /// Suggested name, as raw bytes; empty without a `dn` parameter.
    pub display_name: Vec<u8>,
    /// Tracker URLs, in the order they appeared.
    pub trackers: Vec<Vec<u8>>,
    /// Peer addresses the link suggested trying directly, in order; hints
    /// that are not socket addresses are skipped.
    pub peer_addresses: Vec<HintAddress>,
}

/// A peer's socket address: its IP address as 4 (IPv4) or 16 (IPv6) bytes
/// in network order, and its port.
#[derive(Debug, PartialEq, Eq)]
pub struct HintAddress {
    pub ip: Vec<u8>,
    pub port: u16,
}

impl View for HintAddress {
    type V = (Seq<u8>, u16);

    open spec fn view(&self) -> (Seq<u8>, u16) {
        (self.ip@, self.port)
    }
}

/// What a magnet link says, as plain sequences.
pub struct SpecMagnet {
    pub info_hash: Seq<u8>,
    pub display_name: Seq<u8>,
    pub trackers: Seq<Seq<u8>>,
    pub peer_addresses: Seq<(Seq<u8>, u16)>,
}

impl View for Magnet {
    type V = SpecMagnet;

    open spec fn view(&self) -> SpecMagnet {
        SpecMagnet {
            info_hash: self.info_hash@,
            display_name: self.display_name@,
            trackers: self.trackers.deep_view(),
            peer_addresses: addresses_view(self.peer_addresses@),
        }
    }
}

/// The models of a list of addresses.
pub open spec fn addresses_view(v: Seq<HintAddress>) -> Seq<(Seq<u8>, u16)> {
    Seq::new(v.len(), |i: int| v[i]@)
}

/// The parameters read so far.
pub struct MagnetFields {
    pub info_hash: Option<Seq<u8>>,
    pub display_name: Seq<u8>,
    pub trackers: Seq<Seq<u8>>,
    pub peer_addresses: Seq<(Seq<u8>, u16)>,
}

/// The bytes of `magnet:?`.
pub open spec fn magnet_prefix() -> Seq<u8> {
    seq![109u8, 97u8, 103u8, 110u8, 101u8, 116u8, 58u8, 63u8]
}

/// The bytes of `urn:btih:`.
pub open spec fn btih_prefix() -> Seq<u8> {
    seq![117u8, 114u8, 110u8, 58u8, 98u8, 116u8, 105u8, 104u8, 58u8]
}

/// The position of the first `b` in `s`, or its length when there is none.
pub open spec fn find_byte(s: Seq<u8>, b: u8) -> nat
    decreases s.len(),
{
    if s.len() == 0 {
        0
    } else if s[0] == b {
        0
    } else {
        1 + find_byte(s.drop_first(), b)
    }
}

/// The result of `data_encoding::BASE32_NOPAD.decode` on `input`, `None`
/// where it reports an error.
pub uninterp spec fn base32_nopad(input: Seq<u8>) -> Option<Seq<u8>>;

/// Calls `data_encoding::BASE32_NOPAD.decode`.
///
/// Trusted: the outcome is `base32_nopad` of the input, a function of the
/// input alone. Inputs longer than `usize::MAX / 8` are left out: the crate
/// asserts that bound.
#[verifier::external_body]
fn base32_nopad_decode(input: &[u8]) -> (r: Option<Vec<u8>>)
    requires
        input@.len() <= usize::MAX / 8,
    ensures
        match r {
            Some(v) => base32_nopad(input@) == Some(v@),
            None => base32_nopad(input@) is None,
        },
{
    data_encoding::BASE32_NOPAD.decode(input).ok()
}

/// The socket address `<core::net::SocketAddr as FromStr>` reads from
/// `text`, as its IP address bytes and port, `None` where it reports an
/// error.
pub uninterp spec fn socket_addr_of(text: Seq<char>) -> Option<(Seq<u8>, u16)>;

/// Parses `text` as a `core::net::SocketAddr`: `1.2.3.4:6881`, or the
/// bracketed IPv6 form `[2001:db8::1]:6881`.
///
/// Trusted: the outcome is `socket_addr_of` of the text, a function of the
/// text alone; an IPv4 address gives its 4 octets, an IPv6 address its 16.
#[verifier::external_body]
fn parse_socket_addr(text: &str) -> (r: Option<HintAddress>)
    ensures
        r is Some <==> socket_addr_of(text@) is Some,
        r matches Some(a) ==> socket_addr_of(text@) == Some(a@) && (a.ip@.len() == 4
            || a.ip@.len() == 16),
{
    match text.parse::<core::net::SocketAddr>() {
        Ok(core::net::SocketAddr::V4(a)) => Some(HintAddress { ip: a.ip().octets().to_vec(), port: a.port() }),
        Ok(core::net::SocketAddr::V6(a)) => Some(HintAddress { ip: a.ip().octets().to_vec(), port: a.port() }),
        Err(_) => None,
    }
}

/// What an `x.pe` hint's value gives: its percent-decoded bytes read as
/// UTF-8 text and parsed as a socket address, `None` where either fails.
pub open spec fn spec_peer_hint(value: Seq<u8>) -> Option<(Seq<u8>, u16)> {
    let d = spec_percent_decode(value);
    if valid_utf8(d) {
        socket_addr_of(decode_utf8(d))
    } else {
        None
    }
}

/// Decode an `x.pe` peer hint, or `None` if it is unusable.
///
/// Handles both `1.2.3.4:6881` and the bracketed IPv6 form
/// `[2001:db8::1]:6881`.
pub fn parse_peer_hint(value: &str) -> (r: Option<HintAddress>)
    ensures
        match spec_peer_hint(value.spec_bytes()) {
            Some(a) => r is Some && r->Some_0@ == a,
            None => r is None,
        },
{
    let decoded = percent_decode(value);
    match string_from_utf8(decoded) {
        None => None,
        Some(text) => parse_socket_addr(text.as_str()),
    }
}

/// What the `xt` parameter's value decodes to.
///
/// The same 20 bytes can be written two ways, and the length says which:
/// 40 characters is hex, 32 is base32, read after uppercasing since links in
/// the wild sometimes use lowercase.
pub open spec fn spec_parse_xt(value: Seq<u8>) -> Result<Seq<u8>, MagnetError> {
    if value.len() < 9 || value.take(9) != btih_prefix() {
        Err(MagnetError::NotBittorrentHash)
    } else {
        let hash = value.skip(9);
        if hash.len() == 40 {
            match spec_decode_hex(hash, 20) {
                Ok(b) => Ok(b),
                Err(e) => Err(MagnetError::Hex(e)),
            }
        } else if hash.len() == 32 {
            let upper = encode_utf8(uppercase(decode_utf8(hash)));
            if upper.len() > usize::MAX / 8 {
                Err(MagnetError::InvalidBase32)
            } else {
                match base32_nopad(upper) {
                    None => Err(MagnetError::InvalidBase32),
                    Some(b) => if b.len() == 20 {
                        Ok(b)
                    } else {
                        Err(MagnetError::InvalidHashLength)
                    },
                }
            }
        } else {
            Err(MagnetError::InvalidHashLength)
        }
    }
}

/// Read one `key=value` parameter into the fields; anything without an
/// `=` is dropped, unknown keys are ignored.
pub open spec fn spec_param(acc: MagnetFields, param: Seq<u8>) -> Result<MagnetFields, MagnetError> {
    let eq = find_byte(param, 61);
    if eq >= param.len() {
        Ok(acc)
    } else {
        let key = param.take(eq as int);
        let value = param.skip(eq + 1 as int);
        if key == seq![120u8, 116u8] {
            match spec_parse_xt(value) {
                Ok(h) => Ok(
                    MagnetFields {
                        info_hash: Some(h),
                        display_name: acc.display_name,
                        trackers: acc.trackers,
                        peer_addresses: acc.peer_addresses,
                    },
                ),
                Err(e) => Err(e),
            }
        } else if key == seq![100u8, 110u8] {
            Ok(
                MagnetFields {
                    info_hash: acc.info_hash,
                    display_name: spec_percent_decode(value),
                    trackers: acc.trackers,
                    peer_addresses: acc.peer_addresses,
                },
            )
        } else if key == seq![116u8, 114u8] {
            Ok(
                MagnetFields {
                    info_hash: acc.info_hash,
                    display_name: acc.display_name,
                    trackers: acc.trackers.push(spec_percent_decode(value)),
                    peer_addresses: acc.peer_addresses,
                },
            )
        } else if key == seq![120u8, 46u8, 112u8, 101u8] {
            Ok(
                MagnetFields {
                    info_hash: acc.info_hash,
                    display_name: acc.display_name,
                    trackers: acc.trackers,
                    peer_addresses: match spec_peer_hint(value) {
                        Some(a) => acc.peer_addresses.push(a),
                        None => acc.peer_addresses,
                    },
                },
            )
        } else {
            Ok(acc)
        }
    }
}

/// Read the `&`-separated parameters of `rest`, in order, stopping at the
/// first unusable infohash.
pub open spec fn spec_params(rest: Seq<u8>, acc: MagnetFields) -> Result<MagnetFields, MagnetError>
    decreases rest.len(),
{
    let end = find_byte(rest, 38);
    match spec_param(acc, rest.take(end as int)) {
        Err(e) => Err(e),
        Ok(a) => if end >= rest.len() {
            Ok(a)
        } else {
            spec_params(rest.skip(end as int + 1), a)
        },
    }
}

/// The fields before any parameter is read.
pub open spec fn no_fields() -> MagnetFields {
    MagnetFields {
        info_hash: None,
        display_name: Seq::empty(),
        trackers: Seq::empty(),
        peer_addresses: Seq::empty(),
    }
}

/// What a magnet link parses to.
pub open spec fn spec_parse_magnet(s: Seq<u8>) -> Result<SpecMagnet, MagnetError> {
    if s.len() < 8 || s.take(8) != magnet_prefix() {
        Err(MagnetError::InvalidMagnetPrefix)
    } else {
        match spec_params(s.skip(8), no_fields()) {
            Err(e) => Err(e),
            Ok(f) => match f.info_hash {
                None => Err(MagnetError::MissingXt),
                Some(h) => Ok(
                    SpecMagnet {
                        info_hash: h,
                        display_name: f.display_name,
                        trackers: f.trackers,
                        peer_addresses: f.peer_addresses,
                    },
                ),
            },
        }
    }
}

/// A position found by scanning is the one `find_byte` names.
proof fn lemma_find_byte(s: Seq<u8>, b: u8, k: int)
    requires
        0 <= k <= s.len(),
        forall|j: int| 0 <= j < k ==> s[j] != b,
        k == s.len() || s[k] == b,
    ensures
        find_byte(s, b) == k,
    decreases s.len(),
{
    if s.len() > 0 && k > 0 {
        lemma_find_byte(s.drop_first(), b, k - 1);
    }
}

/// A position that holds an ASCII byte, or the end, starts a character.
proof fn lemma_boundary_at_ascii(bytes: Seq<u8>, i: int)
    requires
        valid_utf8(bytes),
        0 <= i <= bytes.len(),
        i == bytes.len() || bytes[i] < 128,
    ensures
        is_char_boundary(bytes, i),
{
    if i == bytes.len() {
        is_char_boundary_start_end_of_seq(bytes);
    } else {
        is_char_boundary_iff_not_is_continuation_byte(bytes, i);
    }
}

/// The position just after an ASCII byte starts a character.
proof fn lemma_boundary_after_ascii(bytes: Seq<u8>, i: int)
    requires
        valid_utf8(bytes),
        0 < i <= bytes.len(),
        bytes[i - 1] < 128,
    ensures
        is_char_boundary(bytes, i),
{
    if i == bytes.len() {
        is_char_boundary_start_end_of_seq(bytes);
    } else {
        is_char_boundary_iff_not_is_continuation_byte(bytes, i - 1);
        valid_utf8_split(bytes, i - 1);
        let t = bytes.subrange(i - 1, bytes.len() as int);
        let u = bytes.subrange(i, bytes.len() as int);
        assert(t[0] == bytes[i - 1]);
        assert(pop_first_scalar(t) =~= u);
        assert(valid_utf8(u));
        is_char_boundary_start_end_of_seq(u);
        is_char_boundary_iff_not_is_continuation_byte(u, 0);
        assert(u[0] == bytes[i]);
        is_char_boundary_iff_not_is_continuation_byte(bytes, i);
    }
}

/// The text of `s` between two byte positions that sit next to ASCII
/// bytes, so that both fall on character boundaries.
fn ascii_bounded(s: &str, start: usize, end: usize) -> (r: &str)
    requires
        start <= end <= s.spec_bytes().len(),
        start == 0 || s.spec_bytes()[start - 1] < 128,
        end == s.spec_bytes().len() || s.spec_bytes()[end as int] < 128,
    ensures
        r.spec_bytes() == s.spec_bytes().subrange(start as int, end as int),
{
    proof {
        encode_utf8_valid_utf8(s@);
        lemma_boundary_at_ascii(s.spec_bytes(), end as int);
    }
    let (left, _) = s.split_at(end);
    proof {
        encode_utf8_valid_utf8(left@);
        assert(left.spec_bytes() =~= s.spec_bytes().subrange(0, end as int));
        if start > 0 {
            lemma_boundary_after_ascii(left.spec_bytes(), start as int);
        } else {
            is_char_boundary_start_end_of_seq(left.spec_bytes());
        }
    }
    let (_, mid) = left.split_at(start);
    assert(mid.spec_bytes() =~= s.spec_bytes().subrange(start as int, end as int));
    mid
}

/// Decode the `xt` parameter into an infohash.
fn parse_xt(xt: &str) -> (r: Result<[u8; 20], MagnetError>)
    ensures
        match spec_parse_xt(xt.spec_bytes()) {
            Ok(h) => r is Ok && r->Ok_0@ == h,
            Err(e) => r == Err::<[u8; 20], MagnetError>(e),
        },
{
    let b = xt.as_bytes();
    let n = b.len();
    if n < 9 || b[0] != 117 || b[1] != 114 || b[2] != 110 || b[3] != 58 || b[4] != 98 || b[5]
        != 116 || b[6] != 105 || b[7] != 104 || b[8] != 58 {
        proof {
            if n >= 9 && b@.take(9) == btih_prefix() {
                assert(b@.take(9)[0] == b@[0]);
                assert(b@.take(9)[1] == b@[1]);
                assert(b@.take(9)[2] == b@[2]);
                assert(b@.take(9)[3] == b@[3]);
                assert(b@.take(9)[4] == b@[4]);
                assert(b@.take(9)[5] == b@[5]);
                assert(b@.take(9)[6] == b@[6]);
                assert(b@.take(9)[7] == b@[7]);
                assert(b@.take(9)[8] == b@[8]);
            }
        }
        return Err(MagnetError::NotBittorrentHash);
    }
    assert(b@.take(9) =~= btih_prefix());
    let hash = ascii_bounded(xt, 9, n);
    assert(hash.spec_bytes() =~= xt.spec_bytes().skip(9));
    let len = hash.as_bytes().len();
    if len == 40 {
        match decode_hex_array::<20>(hash) {
            Ok(h) => Ok(h),
            Err(e) => Err(MagnetError::Hex(e)),
        }
    } else if len == 32 {
        let upper = str_to_uppercase(hash);
        let ub = upper.as_str().as_bytes();
        proof {
            encode_utf8_decode_utf8(hash@);
        }
        if ub.len() > usize::MAX / 8 {
            return Err(MagnetError::InvalidBase32);
        }
        match base32_nopad_decode(ub) {
            None => Err(MagnetError::InvalidBase32),
            Some(v) => {
                if v.len() == 20 {
                    let mut out = [0u8; 20];
                    let mut i: usize = 0;
                    while i < 20
                        invariant
                            i <= 20,
                            v@.len() == 20,
                            forall|k: int| 0 <= k < i ==> out@[k] == v@[k],
                        decreases 20 - i,
                    {
                        out[i] = v[i];
                        i = i + 1;
                    }
                    assert(out@ =~= v@);
                    Ok(out)
                } else {
                    Err(MagnetError::InvalidHashLength)
                }
            },
        }
    } else {
        Err(MagnetError::InvalidHashLength)
    }
}

/// The parameters read so far, as the parse holds them.
struct Params {
    info_hash: Option<[u8; 20]>,
    display_name: Vec<u8>,
    trackers: Vec<Vec<u8>>,
    peer_addresses: Vec<HintAddress>,
}

impl View for Params {
    type V = MagnetFields;

    closed spec fn view(&self) -> MagnetFields {
        MagnetFields {
            info_hash: match self.info_hash {
                Some(h) => Some(h@),
                None => None,
            },
            display_name: self.display_name@,
            trackers: self.trackers.deep_view(),
            peer_addresses: addresses_view(self.peer_addresses@),
        }
    }
}

/// The first position at or after `from` that holds `b`, or `to`.
fn scan_for(s: &[u8], from: usize, to: usize, b: u8) -> (r: usize)
    requires
        from <= to <= s@.len(),
    ensures
        from <= r <= to,
        find_byte(s@.subrange(from as int, to as int), b) == r - from,
        r < to ==> s@[r as int] == b,
{
    let mut k = from;
    while k < to && s[k] != b
        invariant
            from <= k <= to,
            to <= s@.len(),
            forall|j: int| from <= j < k ==> s@[j] != b,
        decreases to - k,
    {
        k = k + 1;
    }
    proof {
        lemma_find_byte(s@.subrange(from as int, to as int), b, k - from);
    }
    k
}

impl Params {
    /// Read the parameter that spans `start..end` of `s`.
    fn read_param(&mut self, s: &str, start: usize, end: usize) -> (r: Result<(), MagnetError>)
        requires
            start <= end <= s.spec_bytes().len(),
            start == 0 || s.spec_bytes()[start - 1] < 128,
            end == s.spec_bytes().len() || s.spec_bytes()[end as int] < 128,
        ensures
            match spec_param(old(self)@, s.spec_bytes().subrange(start as int, end as int)) {
                Ok(f) => r is Ok && final(self)@ == f,
                Err(e) => r == Err::<(), MagnetError>(e),
            },
    {
        let b = s.as_bytes();
        let ghost sb = b@;
        let ghost param = sb.subrange(start as int, end as int);
        let eq = scan_for(b, start, end, 61);
        if eq >= end {
            return Ok(());
        }
        let ghost key = param.take(eq - start);
        assert(key =~= sb.subrange(start as int, eq as int));
        assert(param.skip(eq - start + 1) =~= sb.subrange(eq + 1, end as int));
        let klen = eq - start;
        if klen == 2 && b[start] == 120 && b[start + 1] == 116 {
            assert(key =~= seq![120u8, 116u8]);
            let v = ascii_bounded(s, eq + 1, end);
            match parse_xt(v) {
                Ok(h) => {
                    self.info_hash = Some(h);
                    Ok(())
                },
                Err(e) => Err(e),
            }
        } else if klen == 2 && b[start] == 100 && b[start + 1] == 110 {
            assert(key =~= seq![100u8, 110u8]);
            let v = ascii_bounded(s, eq + 1, end);
            self.display_name = percent_decode(v);
            Ok(())
        } else if klen == 2 && b[start] == 116 && b[start + 1] == 114 {
            assert(key =~= seq![116u8, 114u8]);
            let v = ascii_bounded(s, eq + 1, end);
            let t = percent_decode(v);
            let ghost before = self.trackers.deep_view();
            let ghost before_v = self.trackers@;
            self.trackers.push(t);
            assert(self.trackers@ == before_v.push(t));
            assert(t.deep_view() =~= t@);
            assert(self.trackers.deep_view() =~= before.push(t@));
            Ok(())
        } else if klen == 4 && b[start] == 120 && b[start + 1] == 46 && b[start + 2] == 112 && b[start
            + 3] == 101 {
            assert(key =~= seq![120u8, 46u8, 112u8, 101u8]);
            let v = ascii_bounded(s, eq + 1, end);
            match parse_peer_hint(v) {
                Some(a) => {
                    let ghost before = self.peer_addresses@;
                    self.peer_addresses.push(a);
                    assert(addresses_view(self.peer_addresses@) =~= addresses_view(before).push(
                        self.peer_addresses@.last()@,
                    ));
                },
                None => {},
            }
            Ok(())
        } else {
            proof {
                if key.len() == 2 {
                    assert(key[0] == sb[start as int]);
                    assert(key[1] == sb[start + 1]);
                }
                if key.len() == 4 {
                    assert(key[0] == sb[start as int]);
                    assert(key[1] == sb[start + 1]);
                    assert(key[2] == sb[start + 2]);
                    assert(key[3] == sb[start + 3]);
                }
            }
            Ok(())
        }
    }
}

impl Magnet {
    /// Parse a magnet link.
    ///
    /// Fails if the prefix is wrong, or if the infohash is missing,
    /// misidentified or unusable. Everything else is best-effort.
    pub fn parse(s: &str) -> (r: Result<Magnet, MagnetError>)
        ensures
            match spec_parse_magnet(s.spec_bytes()) {
                Ok(m) => r is Ok && r->Ok_0@ == m,
                Err(e) => r is Err && r->Err_0 == e,
            },
    {
        let b = s.as_bytes();
        let n = b.len();
        let ghost sb = b@;
        if n < 8 || b[0] != 109 || b[1] != 97 || b[2] != 103 || b[3] != 110 || b[4] != 101 || b[5]
            != 116 || b[6] != 58 || b[7] != 63 {
            proof {
                if n >= 8 && sb.take(8) == magnet_prefix() {
                    assert(sb.take(8)[0] == sb[0]);
                    assert(sb.take(8)[1] == sb[1]);
                    assert(sb.take(8)[2] == sb[2]);
                    assert(sb.take(8)[3] == sb[3]);
                    assert(sb.take(8)[4] == sb[4]);
                    assert(sb.take(8)[5] == sb[5]);
                    assert(sb.take(8)[6] == sb[6]);
                    assert(sb.take(8)[7] == sb[7]);
                }
            }
            return Err(MagnetError::InvalidMagnetPrefix);
        }
        assert(sb.take(8) =~= magnet_prefix());
        let mut params = Params {
            info_hash: None,
            display_name: Vec::new(),
            trackers: Vec::new(),
            peer_addresses: Vec::new(),
        };
        assert(params@.display_name =~= Seq::<u8>::empty());
        assert(params@.trackers =~= Seq::<Seq<u8>>::empty());
        assert(params@.peer_addresses =~= Seq::<(Seq<u8>, u16)>::empty());
        let mut pos: usize = 8;
        loop
            invariant_except_break
                8 <= pos <= n,
                n == sb.len(),
                sb == b@,
                sb == s.spec_bytes(),
                sb.take(8) == magnet_prefix(),
                sb[pos - 1] < 128,
                spec_params(sb.skip(8), no_fields()) == spec_params(sb.skip(pos as int), params@),
            ensures
                spec_params(sb.skip(8), no_fields()) == Ok::<MagnetFields, MagnetError>(params@),
            decreases n - pos,
        {
            let ghost rest = sb.skip(pos as int);
            let ghost acc = params@;
            let end = scan_for(b, pos, n, 38);
            assert(sb.subrange(pos as int, n as int) =~= rest);
            assert(rest.take(end - pos) =~= sb.subrange(pos as int, end as int));
            match params.read_param(s, pos, end) {
                Ok(()) => {},
                Err(e) => {
                    assert(find_byte(rest, 38) == end - pos);
                    return Err(e);
                },
            }
            if end == n {
                break;
            }
            assert(rest.skip(end - pos + 1) =~= sb.skip(end + 1));
            pos = end + 1;
        }
        match params.info_hash {
            None => Err(MagnetError::MissingXt),
            Some(h) => Ok(
                Magnet {
                    info_hash: h,
                    display_name: params.display_name,
                    trackers: params.trackers,
                    peer_addresses: params.peer_addresses,
                },
            ),
        }
    }
}

impl std::str::FromStr for Magnet {
    type Err = MagnetError;

    /// Parse a magnet link, as [`Magnet::parse`] does.
    fn from_str(s: &str) -> (r: Result<Magnet, MagnetError>)
        ensures
            match spec_parse_magnet(s.spec_bytes()) {
                Ok(m) => r is Ok && r->Ok_0@ == m,
                Err(e) => r is Err && r->Err_0 == e,
            },
    {
        Magnet::parse(s)
    }
}

/// A link that names a torrent by the hex text of its 20 bytes, and says
/// nothing more, parses to those bytes with no name, trackers or peers.
pub proof fn law_hex_link_names_its_bytes(h: Seq<u8>)
    requires
        h.len() == 20,
    ensures
        spec_parse_magnet(magnet_prefix() + seq![120u8, 116u8, 61u8] + btih_prefix() + hex_text_bytes(h)) == Ok::<
            SpecMagnet,
            MagnetError,
        >(SpecMagnet { info_hash: h, display_name: Seq::empty(), trackers: Seq::empty(), peer_addresses: Seq::empty() }),
{
    let t = hex_text_bytes(h);
    law_hex_text_shape(h);
    law_hex_round_trip(h);
    assert forall|k: int| 0 <= k < t.len() implies (48 <= #[trigger] t[k] <= 57) || (97 <= t[k] <= 102) by {
        assert(t[k] == hex_text(h)[k] as u8);
    }
    let value = btih_prefix() + t;
    let param = seq![120u8, 116u8, 61u8] + value;
    let s = magnet_prefix() + param;
    assert(s.take(8) =~= magnet_prefix());
    assert(s.skip(8) =~= param);
    assert forall|j: int| 0 <= j < param.len() implies param[j] != 38u8 by {
        if j >= 12 {
            assert(param[j] == t[j - 12]);
        }
    }
    lemma_find_byte(param, 38, param.len() as int);
    assert(param.take(param.len() as int) =~= param);
    lemma_find_byte(param, 61, 2);
    assert(param.take(2) =~= seq![120u8, 116u8]);
    assert(param.skip(3) =~= value);
    assert(value.take(9) =~= btih_prefix());
    assert(value.skip(9) =~= t);
    assert(spec_parse_xt(value) == Ok::<Seq<u8>, MagnetError>(h));
    let f = MagnetFields {
        info_hash: Some(h),
        display_name: Seq::empty(),
        trackers: Seq::empty(),
        peer_addresses: Seq::empty(),
    };
    assert(spec_param(no_fields(), param) == Ok::<MagnetFields, MagnetError>(f));
    assert(spec_params(param, no_fields()) == Ok::<MagnetFields, MagnetError>(f));
    assert(magnet_prefix() + seq![120u8, 116u8, 61u8] + btih_prefix() + t =~= s);
}

} // verus!
