//! The announce request: which tracker, for which torrent, and the URL
//! that asks it for peers.

use vstd::prelude::*;

use crate::bencode::encoder::nat_text;
use crate::text::{ascii_chars, decimal_string, push_chars, push_prefix, string_from_chars};

use super::TrackerError;

verus! {

/// Letters, digits and `-`, `.`, `_`, `~`: the bytes percent-encoding
/// leaves alone.
pub open spec fn is_unreserved(b: u8) -> bool {
    (48 <= b <= 57) || (65 <= b <= 90) || (97 <= b <= 122) || b == 45 || b == 46 || b == 95 || b
        == 126
}

/// The uppercase hexadecimal digit for `d` (below sixteen).
pub open spec fn hex_upper(d: u8) -> char {
    if d < 10 {
        (d + 48) as char
    } else {
        (d + 55) as char
    }
}

/// One byte percent-encoded: itself when unreserved, else `%` and two
/// uppercase hex digits.
pub open spec fn percent_byte(b: u8) -> Seq<char> {
    if is_unreserved(b) {
        seq![b as char]
    } else {
        seq!['%', hex_upper(b / 16), hex_upper(b % 16)]
    }
}

/// Bytes percent-encoded one after another.
pub open spec fn percent_encoded(data: Seq<u8>) -> Seq<char>
    decreases data.len(),
{
    if data.len() == 0 {
        Seq::empty()
    } else {
        percent_encoded(data.drop_last()) + percent_byte(data.last())
    }
}

/// Calls `urlencoding::encode_binary` and takes ownership of the text.
///
/// Trusted: the text is `percent_encoded(data)`, each byte kept when it is
/// a letter, digit, `-`, `.`, `_` or `~`, and otherwise written as `%` and
/// its two uppercase hex digits, as the crate's source does.
#[verifier::external_body]
fn encode_binary(data: &[u8]) -> (r: String)
    ensures
        r@ == percent_encoded(data@),
{
    urlencoding::encode_binary(data).into_owned()
}

/// The pairs of a query, as text.
pub open spec fn pairs_text(params: Seq<(String, String)>) -> Seq<(Seq<char>, Seq<char>)> {
    params.map_values(|p: (String, String)| (p.0@, p.1@))
}

/// What `Url::parse_with_params` gives for `input` and `params`: the
/// URL's text, or the parse error's message.
pub uninterp spec fn parsed_url(input: Seq<char>, params: Seq<(Seq<char>, Seq<char>)>) -> Result<
    Seq<char>,
    Seq<char>,
>;

/// Calls `reqwest::Url::parse_with_params` (the `url` crate's), giving the
/// URL as text or the error's message.
///
/// Trusted: the result is `parsed_url` of the input and the pairs, a
/// function of them alone.
#[verifier::external_body]
fn url_with_params(input: &str, params: &Vec<(String, String)>) -> (r: Result<String, String>)
    ensures
        match r {
            Ok(u) => parsed_url(input@, pairs_text(params@)) == Ok::<Seq<char>, Seq<char>>(u@),
            Err(m) => parsed_url(input@, pairs_text(params@)) == Err::<Seq<char>, Seq<char>>(m@),
        },
{
    match reqwest::Url::parse_with_params(input, params.iter()) {
        Ok(url) => Ok(url.to_string()),
        Err(err) => Err(err.to_string()),
    }
}

/// The announce URL before its query pairs: the tracker's URL, then the
/// peer id and the info hash, percent-encoded.
pub open spec fn announce_base(announce: Seq<char>, peer_id: Seq<u8>, info_hash: Seq<u8>) -> Seq<char> {
    announce + seq!['?', 'p', 'e', 'e', 'r', '_', 'i', 'd', '='] + percent_encoded(peer_id) + seq![
        '&',
        'i',
        'n',
        'f',
        'o',
        '_',
        'h',
        'a',
        's',
        'h',
        '=',
    ] + percent_encoded(info_hash)
}

/// `n` in decimal, as text.
pub open spec fn decimal(n: nat) -> Seq<char> {
    ascii_chars(nat_text(n))
}

/// The query pairs of an announce, in order.
pub open spec fn announce_params(
    port: u16,
    uploaded: u64,
    downloaded: u64,
    left: u64,
    event: Seq<char>,
) -> Seq<(Seq<char>, Seq<char>)> {
    seq![
        (seq!['p', 'o', 'r', 't'], decimal(port as nat)),
        (seq!['u', 'p', 'l', 'o', 'a', 'd', 'e', 'd'], decimal(uploaded as nat)),
        (seq!['d', 'o', 'w', 'n', 'l', 'o', 'a', 'd', 'e', 'd'], decimal(downloaded as nat)),
        (seq!['l', 'e', 'f', 't'], decimal(left as nat)),
        (seq!['c', 'o', 'm', 'p', 'a', 'c', 't'], seq!['1']),
        (seq!['e', 'v', 'e', 'n', 't'], event),
    ]
}

/// A parse's outcome as the tracker reports it: the URL, or
/// [`TrackerError::UrlParse`] with the parser's message.
pub fn announce_url_from(parsed: Result<String, String>) -> (r: Result<String, TrackerError>)
    ensures
        match parsed {
            Ok(u) => r matches Ok(v) && v@ == u@,
            Err(m) => r matches Err(TrackerError::UrlParse(e)) && e@ == m@,
        },
{
    match parsed {
        Ok(u) => Ok(u),
        Err(m) => Err(TrackerError::UrlParse(m)),
    }
}

/// A tracker of one torrent.
#[derive(Debug)]
pub struct Tracker {
    announce: String,
    info_hash: [u8; 20],
}

impl Tracker {
    /// The tracker's announce URL.
    pub closed spec fn announce(&self) -> Seq<char> {
        self.announce@
    }

    /// The torrent's info hash.
    pub closed spec fn info_hash(&self) -> Seq<u8> {
        self.info_hash@
    }

    pub fn new(announce: String, info_hash: [u8; 20]) -> (r: Self)
        ensures
            r.announce() == announce@,
            r.info_hash() == info_hash@,
    {
        Self { announce, info_hash }
    }

    /// The URL that announces this client to the tracker: the announce URL
    /// with the percent-encoded peer id and info hash, then the port, the
    /// byte counts, `compact=1` and the event as query pairs.
    pub fn build_url(
        &self,
        peer_id: &[u8; 20],
        port: u16,
        uploaded: u64,
        downloaded: u64,
        left: u64,
        event: &str,
    ) -> (r: Result<String, TrackerError>)
        ensures
            match parsed_url(
                announce_base(self.announce(), peer_id@, self.info_hash()),
                announce_params(port, uploaded, downloaded, left, event@),
            ) {
                Ok(u) => r matches Ok(v) && v@ == u,
                Err(m) => r matches Err(TrackerError::UrlParse(e)) && e@ == m,
            },
    {
        let peer_id_text = encode_binary(peer_id);
        let info_hash_text = encode_binary(&self.info_hash);
        let mut base: Vec<char> = Vec::new();
        push_prefix(&mut base, self.announce.as_str(), self.announce.as_str().unicode_len());
        push_chars(&mut base, &['?', 'p', 'e', 'e', 'r', '_', 'i', 'd', '=']);
        push_prefix(&mut base, peer_id_text.as_str(), peer_id_text.as_str().unicode_len());
        push_chars(&mut base, &['&', 'i', 'n', 'f', 'o', '_', 'h', 'a', 's', 'h', '=']);
        push_prefix(&mut base, info_hash_text.as_str(), info_hash_text.as_str().unicode_len());
        proof {
            assert(self.announce@.take(self.announce@.len() as int) =~= self.announce@);
            assert(peer_id_text@.take(peer_id_text@.len() as int) =~= peer_id_text@);
            assert(info_hash_text@.take(info_hash_text@.len() as int) =~= info_hash_text@);
        }
        assert(base@ =~= announce_base(self.announce(), peer_id@, self.info_hash()));
        let base_text = string_from_chars(&base);
        let mut params: Vec<(String, String)> = Vec::new();
        params.push(("port".to_owned(), decimal_string(port as u64)));
        params.push(("uploaded".to_owned(), decimal_string(uploaded)));
        params.push(("downloaded".to_owned(), decimal_string(downloaded)));
        params.push(("left".to_owned(), decimal_string(left)));
        params.push(("compact".to_owned(), "1".to_owned()));
        params.push(("event".to_owned(), event.to_owned()));
        proof {
            reveal_strlit("port");
            reveal_strlit("uploaded");
            reveal_strlit("downloaded");
            reveal_strlit("left");
            reveal_strlit("compact");
            reveal_strlit("1");
            reveal_strlit("event");
            assert("port"@ =~= seq!['p', 'o', 'r', 't']);
            assert("uploaded"@ =~= seq!['u', 'p', 'l', 'o', 'a', 'd', 'e', 'd']);
            assert("downloaded"@ =~= seq!['d', 'o', 'w', 'n', 'l', 'o', 'a', 'd', 'e', 'd']);
            assert("left"@ =~= seq!['l', 'e', 'f', 't']);
            assert("compact"@ =~= seq!['c', 'o', 'm', 'p', 'a', 'c', 't']);
            assert("1"@ =~= seq!['1']);
            assert("event"@ =~= seq!['e', 'v', 'e', 'n', 't']);
            assert(pairs_text(params@) =~~= announce_params(port, uploaded, downloaded, left, event@));
        }
        announce_url_from(url_with_params(base_text.as_str(), &params))
    }
}

/// Seconds to wait before announcing again after a failed announce.
pub const RETRY_SECONDS: u64 = 30;

/// What to do after an announce: whether the next one still carries the
/// `started` event, and how many seconds to wait before it. A successful
/// announce (`Some` of the interval the tracker asked for) clears the event
/// and waits that interval; a failed one (`None`) keeps the event and waits
/// [`RETRY_SECONDS`].
pub fn next_announce(started: bool, outcome: Option<u64>) -> (next: (bool, u64))
    ensures
        next == match outcome {
            Some(interval) => (false, interval),
            None => (started, RETRY_SECONDS),
        },
{
    match outcome {
        Some(interval) => (false, interval),
        None => (started, RETRY_SECONDS),
    }
}

} // verus!
