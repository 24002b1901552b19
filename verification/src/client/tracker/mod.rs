//! Reading a tracker's announce response.

use vstd::prelude::*;
use vstd::string::StringSliceAdditionalSpecFns;

use crate::bencode::spec::{dict_get, SpecBencode};
use crate::client::protocol::decoder::{spec_protocol_decode, Decoder, DecoderError, SpecDecoderError};
use crate::client::protocol::Bencode;
use crate::client::wire::{be_u16, get_u16};
use crate::text::{lossy_utf8, string_from_utf8_lossy};

pub mod announce;
pub mod response;

pub use announce::Tracker;

use response::{PeerAddress, TrackerSuccessResponse};

verus! {

/// Why an announce response was refused.
#[derive(Debug)]
pub enum TrackerError {
    /// The body was not bencode.
    Bencode(DecoderError),
    /// The body was not a dictionary.
    NotADictionary,
    /// The tracker refused the announce, with this reason.
    Failure(String),
    /// `interval` was not an integer.
    WrongIntervalType,
    /// `interval` was missing.
    MissingInterval,
    /// `peers` was not a byte string.
    WrongPeersType,
    /// `peers` was missing.
    MissingPeers,
    /// The announce URL did not parse, with the parser's message.
    UrlParse(String),
}

/// An error as plain values.
pub enum SpecTrackerError {
    Bencode(SpecDecoderError),
    NotADictionary,
    Failure(Seq<char>),
    WrongIntervalType,
    MissingInterval,
    WrongPeersType,
    MissingPeers,
    UrlParse(Seq<char>),
}

impl View for TrackerError {
    type V = SpecTrackerError;

    open spec fn view(&self) -> SpecTrackerError {
        match self {
            TrackerError::Bencode(e) => SpecTrackerError::Bencode(e@),
            TrackerError::NotADictionary => SpecTrackerError::NotADictionary,
            TrackerError::Failure(s) => SpecTrackerError::Failure(s@),
            TrackerError::WrongIntervalType => SpecTrackerError::WrongIntervalType,
            TrackerError::MissingInterval => SpecTrackerError::MissingInterval,
            TrackerError::WrongPeersType => SpecTrackerError::WrongPeersType,
            TrackerError::MissingPeers => SpecTrackerError::MissingPeers,
            TrackerError::UrlParse(m) => SpecTrackerError::UrlParse(m@),
        }
    }
}

/// A peer address as plain values.
pub struct SpecPeer {
    pub ip: Seq<u8>,
    pub port: u16,
}

/// The peers of a compact list: six bytes each, four of IPv4 address then
/// a big-endian port; a trailing partial entry is ignored.
pub open spec fn compact_peers(b: Seq<u8>) -> Seq<SpecPeer> {
    Seq::new(b.len() / 6, |i: int| SpecPeer { ip: b.subrange(6 * i, 6 * i + 4), port: be_u16(b.skip(6 * i + 4)) })
}

/// Peer addresses as plain values.
pub open spec fn peers_view(v: Seq<PeerAddress>) -> Seq<SpecPeer> {
    Seq::new(v.len(), |i: int| SpecPeer { ip: v[i].ip@, port: v[i].port })
}

/// What an announce response says: the interval and the compact peers.
pub open spec fn spec_response(body: Seq<u8>) -> Result<(u64, Seq<SpecPeer>), SpecTrackerError> {
    match spec_protocol_decode(body) {
        Err(e) => Err(SpecTrackerError::Bencode(e)),
        Ok(SpecBencode::Dict(es)) => match dict_get(es, "failure reason".spec_bytes()) {
            Some(SpecBencode::Str(reason)) => Err(SpecTrackerError::Failure(lossy_utf8(reason))),
            _ => match dict_get(es, "interval".spec_bytes()) {
                None => Err(SpecTrackerError::MissingInterval),
                Some(SpecBencode::Int(n)) => match dict_get(es, "peers".spec_bytes()) {
                    None => Err(SpecTrackerError::MissingPeers),
                    Some(SpecBencode::Str(p)) => Ok((n as i64 as u64, compact_peers(p))),
                    Some(_) => Err(SpecTrackerError::WrongPeersType),
                },
                Some(_) => Err(SpecTrackerError::WrongIntervalType),
            },
        },
        Ok(_) => Err(SpecTrackerError::NotADictionary),
    }
}

/// The peers of a compact peer list.
pub fn compact_peer_list(bytes: &[u8]) -> (r: Vec<PeerAddress>)
    ensures
        peers_view(r@) == compact_peers(bytes@),
{
    let n = bytes.len() / 6;
    assert(n * 6 <= bytes@.len()) by (nonlinear_arith)
        requires
            n == bytes@.len() / 6,
    ;
    let mut out: Vec<PeerAddress> = Vec::new();
    let mut i: usize = 0;
    while i < n
        invariant
            i <= n,
            n == bytes@.len() / 6,
            n * 6 <= bytes@.len(),
            bytes@.len() <= usize::MAX,
            out@.len() == i,
            peers_view(out@) == compact_peers(bytes@).take(i as int),
        decreases n - i,
    {
        let at = 6 * i;
        let ip = [bytes[at], bytes[at + 1], bytes[at + 2], bytes[at + 3]];
        let port = get_u16(bytes, at + 4);
        let ghost before = out@;
        out.push(PeerAddress { ip, port });
        assert(ip@ =~= bytes@.subrange(6 * i, 6 * i + 4));
        assert(out@[i as int].ip@ == compact_peers(bytes@)[i as int].ip);
        assert(out@[i as int].port == compact_peers(bytes@)[i as int].port);
        assert forall|j: int| 0 <= j < i implies out@[j] == before[j] by {}
        assert(peers_view(out@) =~= compact_peers(bytes@).take(i + 1));
        i = i + 1;
    }
    assert(compact_peers(bytes@).take(n as int) =~= compact_peers(bytes@));
    out
}

/// Read a tracker's announce response.
pub fn decode_response(bytes: &[u8]) -> (r: Result<TrackerSuccessResponse, TrackerError>)
    ensures
        match spec_response(bytes@) {
            Ok((interval, peers)) => r is Ok && r->Ok_0.interval == interval && peers_view(r->Ok_0.peers@) == peers,
            Err(e) => r is Err && r->Err_0@ == e,
        },
{
    let mut decoder = Decoder::new(bytes);
    let bencode = match decoder.decode() {
        Ok(b) => b,
        Err(e) => return Err(TrackerError::Bencode(e)),
    };
    let dict = match bencode {
        Bencode::Dictionary(dict) => dict,
        _ => return Err(TrackerError::NotADictionary),
    };
    if let Some(Bencode::String(reason)) = dict.get("failure reason".as_bytes()) {
        return Err(TrackerError::Failure(string_from_utf8_lossy(reason.as_slice())));
    }
    let interval = match dict.get("interval".as_bytes()) {
        Some(Bencode::Integer(value)) => *value as u64,
        Some(_) => return Err(TrackerError::WrongIntervalType),
        None => return Err(TrackerError::MissingInterval),
    };
    let peers = match dict.get("peers".as_bytes()) {
        Some(Bencode::String(b)) => compact_peer_list(b.as_slice()),
        Some(_) => return Err(TrackerError::WrongPeersType),
        None => return Err(TrackerError::MissingPeers),
    };
    Ok(TrackerSuccessResponse::new(interval, peers))
}

/// The peers of an accepted announce response are its `peers` string read
/// six bytes at a time, in order: peer `i` has bytes `6 * i .. 6 * i + 4`
/// as its address and the next two, high byte first, as its port; a
/// trailing partial entry gives no peer.
pub proof fn law_response_peers_are_the_compact_entries(body: Seq<u8>)
    ensures
        spec_response(body) matches Ok((_, peers)) ==> {
            &&& spec_protocol_decode(body) matches Ok(SpecBencode::Dict(es))
            &&& dict_get(es, "peers".spec_bytes()) matches Some(SpecBencode::Str(p))
            &&& peers.len() == p.len() / 6
            &&& forall|i: int|
                0 <= i < peers.len() ==> 6 * i + 6 <= p.len() && #[trigger] peers[i].ip == p.subrange(6 * i, 6 * i + 4)
                    && peers[i].port as int == p[6 * i + 4] as int * 256 + p[6 * i + 5] as int
        },
{
    if let Ok((_, peers)) = spec_response(body) {
        let es = spec_protocol_decode(body)->Ok_0->Dict_0;
        let p = dict_get(es, "peers".spec_bytes())->Some_0->Str_0;
        assert(peers == compact_peers(p));
        assert forall|i: int| 0 <= i < peers.len() implies 6 * i + 6 <= p.len() && #[trigger] peers[i].ip
            == p.subrange(6 * i, 6 * i + 4) && peers[i].port as int == p[6 * i + 4] as int * 256 + p[6 * i
            + 5] as int by {
            let n = p.len() / 6;
            assert(6 * i + 6 <= p.len()) by (nonlinear_arith)
                requires
                    0 <= i < n,
                    n == p.len() / 6,
            ;
            let t = p.skip(6 * i + 4);
            assert(t[0] == p[6 * i + 4] && t[1] == p[6 * i + 5]);
            assert(p[6 * i + 4] as int * 256 + p[6 * i + 5] as int <= 65535);
        }
    }
}

} // verus!
