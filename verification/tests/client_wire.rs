//! Peer wire messages, the handshake, and tracker responses.

use tafukt::client::peer::command::PeerCommand;
use tafukt::client::peer::handshake::{check_reply, handshake_bytes, HandshakeError};
use tafukt::client::peer::message::{Message, MessageError};
use tafukt::client::peer::peer_message::{Message as MessageId, PeerMessage};
use tafukt::client::peer::piece::Piece;
use tafukt::client::tracker::{compact_peer_list, decode_response, TrackerError};

fn round_trip(message: Message) {
    let mut buf = message.encode();
    buf.extend_from_slice(b"rest");
    let decoded = Message::decode(&mut buf).unwrap().unwrap();
    assert_eq!(format!("{decoded:?}"), format!("{message:?}"));
    assert_eq!(buf, b"rest");
}

#[test]
fn messages_are_length_prefixed() {
    assert_eq!(Message::KeepAlive.encode(), vec![0, 0, 0, 0]);
    assert_eq!(Message::Choke.encode(), vec![0, 0, 0, 1, 0]);
    assert_eq!(Message::Unchoke.encode(), vec![0, 0, 0, 1, 1]);
    assert_eq!(Message::Interested.encode(), vec![0, 0, 0, 1, 2]);
    assert_eq!(Message::NotInterested.encode(), vec![0, 0, 0, 1, 3]);
    assert_eq!(Message::Bitfield(vec![0xaa, 0x55]).encode(), vec![0, 0, 0, 3, 5, 0xaa, 0x55]);
    assert_eq!(
        Message::Request { index: 1, begin: 0x4000, length: 0x0102_0304 }.encode(),
        vec![0, 0, 0, 13, 6, 0, 0, 0, 1, 0, 0, 0x40, 0, 1, 2, 3, 4]
    );
    assert_eq!(
        Message::Piece { index: 2, begin: 3, data: vec![9, 8] }.encode(),
        vec![0, 0, 0, 11, 7, 0, 0, 0, 2, 0, 0, 0, 3, 9, 8]
    );
}

#[test]
fn decoding_undoes_encoding() {
    round_trip(Message::KeepAlive);
    round_trip(Message::Choke);
    round_trip(Message::Unchoke);
    round_trip(Message::Interested);
    round_trip(Message::NotInterested);
    round_trip(Message::Bitfield(vec![1, 2, 3]));
    round_trip(Message::Request { index: 1, begin: 2, length: 3 });
    round_trip(Message::Piece { index: 7, begin: 16384, data: vec![5; 10] });
}

#[test]
fn partial_messages_wait_for_more() {
    let mut buf = vec![0, 0, 0];
    assert!(Message::decode(&mut buf).unwrap().is_none());
    assert_eq!(buf.len(), 3);
    let mut buf = vec![0, 0, 0, 5, 5, 1];
    assert!(Message::decode(&mut buf).unwrap().is_none());
    assert_eq!(buf.len(), 6);
}

#[test]
fn unknown_ids_are_skipped_and_short_payloads_refused() {
    let mut buf = vec![0, 0, 0, 5, 4, 0, 0, 0, 9, 0xee];
    assert!(Message::decode(&mut buf).unwrap().is_none());
    assert_eq!(buf, vec![0xee]);

    let mut buf = vec![0, 0, 0, 3, 7, 0, 0];
    assert!(matches!(Message::decode(&mut buf), Err(MessageError::Malformed)));
    assert_eq!(buf.len(), 7);

    let mut buf = vec![0, 0, 0, 1, 6];
    assert!(matches!(Message::decode(&mut buf), Err(MessageError::Malformed)));
}

#[test]
fn a_request_reads_twelve_bytes_after_its_id() {
    let mut buf = Message::Request { index: 1, begin: 2, length: 3 }.encode();
    buf.extend_from_slice(&[0; 6]);
    match Message::decode(&mut buf).unwrap() {
        Some(Message::Request { index, begin, length }) => assert_eq!((index, begin, length), (1, 2, 3)),
        other => panic!("expected a request, got {other:?}"),
    }
    assert_eq!(buf.len(), 6);
}

#[test]
fn message_ids() {
    assert_eq!(MessageId::from(0), MessageId::Choke);
    assert_eq!(MessageId::from(4), MessageId::Have);
    assert_eq!(MessageId::from(8), MessageId::Cancel);
    let m = PeerMessage::new(MessageId::Piece, vec![1]);
    assert_eq!(m.id, MessageId::Piece);
    assert_eq!(m.payload, vec![1]);
}

#[test]
fn handshake_layout_and_checks() {
    let hash = [7u8; 20];
    let id = [9u8; 20];
    let bytes = handshake_bytes(&hash, &id);
    assert_eq!(bytes.len(), 68);
    assert_eq!(bytes[0], 19);
    assert_eq!(&bytes[1..20], b"BitTorrent protocol");
    assert_eq!(&bytes[20..28], &[0; 8]);
    assert_eq!(&bytes[28..48], &hash);
    assert_eq!(&bytes[48..68], &id);

    let mut reply = [0u8; 68];
    reply.copy_from_slice(&bytes);
    assert_eq!(check_reply(&reply, &hash), Ok(()));
    assert_eq!(check_reply(&reply, &[1u8; 20]), Err(HandshakeError::MismatchedInfoHash));
    reply[5] = b'x';
    assert_eq!(check_reply(&reply, &hash), Err(HandshakeError::InvalidProtocol));
}

#[test]
fn pieces_know_their_disk_offset() {
    let piece = Piece::new(3, 100, vec![1, 2, 3]);
    assert_eq!(piece.disk_offset(1000), 3100);
    assert_eq!(piece.data(), &[1, 2, 3]);
    assert_eq!(PeerCommand::Request { index: 1, begin: 2, length: 3 }, PeerCommand::Request { index: 1, begin: 2, length: 3 });
}

#[test]
fn compact_peers_are_six_bytes_each() {
    let peers = compact_peer_list(&[1, 2, 3, 4, 0x1a, 0xe1, 10, 0, 0, 1, 0, 80, 99]);
    assert_eq!(peers.len(), 2);
    assert_eq!(peers[0].ip, [1, 2, 3, 4]);
    assert_eq!(peers[0].port, 6881);
    assert_eq!(peers[1].ip, [10, 0, 0, 1]);
    assert_eq!(peers[1].port, 80);
}

#[test]
fn tracker_responses() {
    let ok = decode_response(b"d8:intervali1800e5:peers6:\x7f\x00\x00\x01\x1a\xe1e").unwrap();
    assert_eq!(ok.interval, 1800);
    assert_eq!(ok.peers.len(), 1);
    assert_eq!(ok.peers[0].port, 6881);

    match decode_response(b"d14:failure reason4:nopee") {
        Err(TrackerError::Failure(reason)) => assert_eq!(reason, "nope"),
        other => panic!("expected a failure, got {other:?}"),
    }
    assert!(matches!(decode_response(b"le"), Err(TrackerError::NotADictionary)));
    assert!(matches!(decode_response(b"d5:peers0:e"), Err(TrackerError::MissingInterval)));
    assert!(matches!(decode_response(b"d8:interval1:xe"), Err(TrackerError::WrongIntervalType)));
    assert!(matches!(decode_response(b"d8:intervali1ee"), Err(TrackerError::MissingPeers)));
    assert!(matches!(decode_response(b"d8:intervali1e5:peersi1ee"), Err(TrackerError::WrongPeersType)));
    assert!(matches!(decode_response(b"i1"), Err(TrackerError::Bencode(_))));
}
