//! The swarm, piece picking, the disk side, peer ids, announce URLs and the
//! peer worker's message mapping.

use std::collections::HashSet;
use std::sync::Arc;

use sha1::{Digest, Sha1};
use tafukt::bittorrent::util::{percent_decode, to_path};
use tafukt::client::disk::{DiskEvent, DiskManager};
use tafukt::client::engine::PeerEvent;
use tafukt::client::metainfo::info_dictionary::InfoDictionary;
use tafukt::client::peer::bitfield::Bitfield;
use tafukt::client::peer::command::PeerCommand;
use tafukt::client::peer::message::Message;
use tafukt::client::peer::session::PeerWorker;
use tafukt::client::peer::swarm::{address_key, Swarm, SwarmEvent};
use tafukt::client::peer::worker::{event_for_message, message_for_command};
use tafukt::client::piece::in_progress::InProgress;
use tafukt::client::piece::picker::PiecePicker;
use tafukt::client::piece::PieceManager;
use tafukt::client::protocol::decoder::Decoder;
use tafukt::client::tracker::response::PeerAddress;
use tafukt::client::tracker::announce::{next_announce, RETRY_SECONDS};
use tafukt::client::tracker::{Tracker, TrackerError};
use tafukt::client::util::{generate_peer_id, peer_id_from, version_to_bytes};

fn addr(last: u8, port: u16) -> PeerAddress {
    PeerAddress { ip: [10, 0, 0, last], port }
}

fn ports(v: &[PeerAddress]) -> Vec<u16> {
    v.iter().map(|a| a.port).collect()
}

#[test]
fn address_keys_pack_address_then_port() {
    assert_eq!(address_key(&PeerAddress { ip: [1, 2, 3, 4], port: 0x0506 }), 0x0102_0304_0506);
}

#[test]
fn swarm_queues_new_addresses_once_and_connects_on_a_free_slot() {
    let mut swarm = Swarm::new();
    let connect = swarm.handle_event(SwarmEvent::NewCandidates(vec![addr(1, 1), addr(2, 2), addr(1, 1)]));
    assert!(connect.is_empty());
    let connect = swarm.handle_event(SwarmEvent::PeerDisconnected(addr(9, 9)));
    assert_eq!(ports(&connect), vec![1, 2]);
    let connect = swarm.handle_event(SwarmEvent::NewCandidates(vec![addr(1, 1)]));
    assert!(connect.is_empty());
    let connect = swarm.handle_event(SwarmEvent::PeerDisconnected(addr(9, 9)));
    assert!(connect.is_empty());
}

#[test]
fn swarm_stops_connecting_after_shutdown() {
    let mut swarm = Swarm::new();
    swarm.handle_event(SwarmEvent::Shutdown);
    swarm.handle_event(SwarmEvent::NewCandidates(vec![addr(3, 3)]));
    assert!(swarm.fill_slots().is_empty());
    assert!(swarm.handle_event(SwarmEvent::PeerDisconnected(addr(3, 3))).is_empty());
}

#[test]
fn swarm_fills_at_most_the_target() {
    let mut swarm = Swarm::new();
    let many: Vec<PeerAddress> = (0..60u16).map(|p| addr(7, p)).collect();
    swarm.add_candidates(many);
    let first = swarm.fill_slots();
    assert_eq!(first.len(), 50);
    assert_eq!(first[0].port, 0);
    assert!(swarm.fill_slots().is_empty());
}

#[test]
fn in_progress_starts_with_no_block() {
    let mut piece = InProgress::new(40000);
    let shown = format!("{piece:?}");
    assert!(shown.contains("blocks: [None, None, None]"), "{shown}");
    assert!(shown.contains("requested: [false, false, false]"), "{shown}");
    piece.cancel_unfinished();
    assert!(format!("{piece:?}").contains("requested: [false, false, false]"));
}

#[test]
fn picker_counts_peers_per_piece() {
    let mut picker = PiecePicker::new(Bitfield::new(3));
    assert!(format!("{picker:?}").contains("availability: [0, 0, 0]"));
    picker.register_peer_bitfield(&Bitfield::from_bytes(vec![0b1010_0000], 3));
    picker.register_peer_bitfield(&Bitfield::from_bytes(vec![0b1000_0000], 3));
    assert!(format!("{picker:?}").contains("availability: [2, 0, 1]"));
    picker.cancel_peer_requests(HashSet::from([0usize, 2]));
    assert!(format!("{picker:?}").contains("availability: [2, 0, 1]"));
}

#[test]
fn versions_read_as_four_bytes() {
    assert_eq!(version_to_bytes("0.1.0"), [0, 1, 0, 0]);
    assert_eq!(version_to_bytes("1.2.3.4.5"), [1, 2, 3, 4]);
    assert_eq!(version_to_bytes("1.x.300.+4"), [1, 0, 0, 4]);
    assert_eq!(version_to_bytes(""), [0, 0, 0, 0]);
    assert_eq!(version_to_bytes("+"), [0, 0, 0, 0]);
    assert_eq!(version_to_bytes("007.255"), [7, 255, 0, 0]);
}

#[test]
fn peer_ids_carry_tag_version_and_random_letters() {
    let id = peer_id_from("2.10.0", b"abcXYZ012789");
    assert_eq!(&id[0..3], b"-TF");
    assert_eq!(&id[3..7], &[2, 10, 0, 0]);
    assert_eq!(id[7], b'-');
    assert_eq!(&id[8..], b"abcXYZ012789");
}

#[test]
fn generated_peer_ids_end_in_random_letters_and_digits() {
    let id = generate_peer_id("1.2.3.4");
    assert_eq!(&id[..8], b"-TF\x01\x02\x03\x04-");
    assert!(id[8..].iter().all(|b| b.is_ascii_alphanumeric()));
}

#[test]
fn announce_urls_encode_binary_ids() {
    let tracker = Tracker::new("http://tracker.example/announce".to_string(), [0xab; 20]);
    let url = tracker.build_url(b"-TF0100-abcdefgh.~_Z", 6881, 0, 5, 100, "started").unwrap();
    let expected = format!(
        "http://tracker.example/announce?peer_id=-TF0100-abcdefgh.~_Z&info_hash={}&port=6881&uploaded=0&downloaded=5&left=100&compact=1&event=started",
        "%AB".repeat(20)
    );
    assert_eq!(url, expected);
    let spaced = Tracker::new("http://t.example/a".to_string(), [b' '; 20]);
    let url = spaced.build_url(&[0u8; 20], 1, 2, 3, 4, "").unwrap();
    assert!(url.contains(&format!("peer_id={}&", "%00".repeat(20))), "{url}");
    assert!(url.contains(&format!("info_hash={}&", "%20".repeat(20))), "{url}");
    assert!(url.ends_with("&compact=1&event="), "{url}");
}

#[test]
fn announce_urls_report_parse_errors() {
    let tracker = Tracker::new("not a url".to_string(), [0; 20]);
    match tracker.build_url(&[0; 20], 1, 0, 0, 0, "started") {
        Err(TrackerError::UrlParse(message)) => assert_eq!(message, "relative URL without a base"),
        other => panic!("expected a parse error, got {other:?}"),
    }
}

fn content() -> Vec<u8> {
    (0..40000u32).map(|i| (i % 251) as u8).collect()
}

fn info_for(data: &[u8]) -> InfoDictionary {
    let mut pieces = Vec::new();
    pieces.extend_from_slice(&Sha1::digest(&data[..32768]));
    pieces.extend_from_slice(&Sha1::digest(&data[32768..]));
    let mut bytes = b"d6:lengthi40000e4:name5:a.bin12:piece lengthi32768e6:pieces40:".to_vec();
    bytes.extend_from_slice(&pieces);
    bytes.push(b'e');
    InfoDictionary::try_from(Decoder::new(&bytes).decode().unwrap()).unwrap()
}

#[test]
fn blocks_land_at_their_offset_in_the_content() {
    let data = content();
    let disk = DiskManager::new(Arc::new(info_for(&data)));
    assert_eq!(disk.block_span(0, 0, 16384), Some((0, 16384)));
    assert_eq!(disk.block_span(0, 16384, 16384), Some((16384, 32768)));
    assert_eq!(disk.block_span(1, 0, 7232), Some((32768, 40000)));
    assert_eq!(disk.block_span(1, 0, 7233), None);
    assert_eq!(disk.block_span(1, 16384, 1), None);
    assert_eq!(disk.block_span(7, 0, 0), None);
}

#[test]
fn a_piece_completes_when_all_its_blocks_arrived() {
    let data = content();
    let mut disk = DiskManager::new(Arc::new(info_for(&data)));
    assert!(disk.record_block(1, 0));
    assert!(!disk.record_block(0, 0));
    assert!(!disk.record_block(0, 0));
    assert!(disk.record_block(0, 16384));
    assert!(!disk.record_block(0, 16384));
}

#[test]
fn finished_pieces_are_checked_against_their_hash() {
    let mut data = content();
    let disk = DiskManager::new(Arc::new(info_for(&data)));
    assert_eq!(disk.verify_hash(&data, 0), DiskEvent::PieceVerified(0));
    assert_eq!(disk.verify_hash(&data, 1), DiskEvent::PieceVerified(1));
    assert_eq!(disk.verify_hash(&data, 2), DiskEvent::PieceFailed(2));
    data[100] ^= 1;
    assert_eq!(disk.verify_hash(&data, 0), DiskEvent::PieceFailed(0));
    assert_eq!(disk.verify_hash(&data[..100], 1), DiskEvent::PieceFailed(1));
}

#[test]
fn resume_marks_the_pieces_already_on_disk() {
    let mut data = content();
    let disk = DiskManager::new(Arc::new(info_for(&data)));
    let mut manager = PieceManager::new(2, 32768, 40000);
    disk.resume(&data, &mut manager);
    assert!(manager.is_complete());

    data[39999] ^= 1;
    let mut manager = PieceManager::new(2, 32768, 40000);
    disk.resume(&data, &mut manager);
    assert!(!manager.is_complete());
    assert!(manager.have().has(0));
    assert!(!manager.have().has(1));
}

#[test]
fn peer_messages_become_engine_events() {
    assert!(matches!(event_for_message(Message::Choke), Some(PeerEvent::Choke)));
    assert!(matches!(event_for_message(Message::Unchoke), Some(PeerEvent::Unchoke)));
    assert!(matches!(event_for_message(Message::Bitfield(vec![1, 2])), Some(PeerEvent::Bitfield(b)) if b == vec![1, 2]));
    assert!(matches!(
        event_for_message(Message::Piece { index: 3, begin: 16384, data: vec![9] }),
        Some(PeerEvent::Block { piece_index: 3, begin: 16384, data }) if data == vec![9]
    ));
    assert!(event_for_message(Message::KeepAlive).is_none());
    assert!(event_for_message(Message::Interested).is_none());
    assert!(event_for_message(Message::Request { index: 0, begin: 0, length: 1 }).is_none());
    assert!(matches!(
        message_for_command(PeerCommand::Request { index: 1, begin: 2, length: 3 }),
        Message::Request { index: 1, begin: 2, length: 3 }
    ));
}

#[test]
fn paths_are_lossy_text() {
    assert_eq!(to_path(b"dir/file.txt"), "dir/file.txt");
    assert_eq!(to_path(b"a\xffb"), "a\u{fffd}b");
}

#[test]
fn plain_text_survives_percent_decoding() {
    assert_eq!(percent_decode("ubuntu-24.04.iso"), b"ubuntu-24.04.iso");
    for text in ["", "a", "%", "%%41", "+++", "%4", "x%41y+z"] {
        assert!(percent_decode(text).len() <= text.len());
    }
}

#[test]
fn a_worker_claims_a_piece_once_unchoked_and_told_the_peer_bitfield() {
    let mut manager = PieceManager::new(3, 32768, 70000);
    let mut worker = PeerWorker::new(3, 32768, 70000);
    assert_eq!(worker.piece_len(0), 32768);
    assert_eq!(worker.piece_len(2), 70000 - 65536);
    assert!(!worker.can_request());
    worker.handle_message(Message::Unchoke, &mut manager);
    assert!(!worker.can_request());
    worker.handle_message(Message::Bitfield(vec![0b0010_0000]), &mut manager);
    assert!(worker.can_request());
    match worker.next_request() {
        Some(Message::Request { index: 2, begin: 0, length }) => assert_eq!(length, 70000 - 65536),
        other => panic!("expected a request for piece 2, got {other:?}"),
    }
    assert!(worker.next_request().is_none());
    assert!(!worker.can_request());
    worker.handle_message(Message::Choke, &mut manager);
    worker.handle_message(Message::KeepAlive, &mut manager);
    assert_eq!(manager.claim_piece(&Bitfield::from_bytes(vec![0b0010_0000], 3)), None);
}

#[test]
fn a_worker_requests_at_most_a_pipeline_at_a_time() {
    let mut manager = PieceManager::new(1, 16384 * 10, 16384 * 10);
    let mut worker = PeerWorker::new(1, 16384 * 10, 16384 * 10);
    worker.handle_message(Message::Unchoke, &mut manager);
    worker.handle_message(Message::Bitfield(vec![0b1000_0000]), &mut manager);
    let mut sent = 0;
    while worker.can_request() {
        assert!(worker.next_request().is_some());
        sent += 1;
    }
    assert_eq!(sent, 8);
}

#[test]
fn announces_start_once_and_wait_as_told() {
    assert_eq!(next_announce(true, Some(1800)), (false, 1800));
    assert_eq!(next_announce(true, None), (true, RETRY_SECONDS));
    assert_eq!(next_announce(false, None), (false, 30));
    assert_eq!(next_announce(false, Some(60)), (false, 60));
}
