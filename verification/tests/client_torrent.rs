//! The client's torrent metadata, piece bookkeeping and engine decisions.

use std::sync::Arc;

use sha1::{Digest, Sha1};
use tafukt::client::disk::{DiskEvent, Progress};
use tafukt::client::engine::{populate_remaining_blocks, Engine, PeerEvent, BLOCK_SIZE};
use tafukt::client::metainfo::error::MetainfoError;
use tafukt::client::metainfo::file_layout::FileLayout;
use tafukt::client::metainfo::info_dictionary::InfoDictionary;
use tafukt::client::metainfo::info_dictionary_file::InfoDictionaryFile;
use tafukt::client::metainfo::util::{
    extract_bencode_from_dict, extract_bencode_list_from_dict, extract_bytes_from_dict, extract_integer_from_dict,
    extract_list_from_dict, extract_optional_integer_from_dict, extract_optional_list_from_dict,
    extract_optional_string_from_dict, extract_string_from_dict, extract_string_list_from_dict,
};
use tafukt::client::metainfo::Metainfo;
use tafukt::client::peer::bitfield::Bitfield;
use tafukt::client::peer::command::PeerCommand;
use tafukt::client::piece::PieceManager;
use tafukt::client::protocol::decoder::Decoder;
use tafukt::client::protocol::encoder::encode;
use tafukt::client::protocol::{Bencode, Dictionary};

fn dict_of(bytes: &[u8]) -> Dictionary {
    match Decoder::new(bytes).decode().unwrap() {
        Bencode::Dictionary(d) => d,
        other => panic!("expected a dictionary, got {other:?}"),
    }
}

fn info_bytes(pieces: usize) -> Vec<u8> {
    let mut out = format!("d6:lengthi40000e4:name5:a.txt12:piece lengthi32768e6:pieces{}:", pieces * 20).into_bytes();
    out.extend((0..pieces * 20).map(|i| i as u8));
    out.push(b'e');
    out
}

#[test]
fn extractors_read_typed_values() {
    let dict = dict_of(b"d1:ai-3e1:bi7e1:cl1:x1:ye1:d2:hi1:e2:\xff\xfe1:fli1eee");
    assert_eq!(extract_integer_from_dict(&dict, "b").unwrap(), 7);
    assert!(matches!(extract_integer_from_dict(&dict, "a"), Err(MetainfoError::IntegerOverflow)));
    assert!(matches!(extract_integer_from_dict(&dict, "zz"), Err(MetainfoError::MissingKey(k)) if k == "zz"));
    assert!(matches!(extract_integer_from_dict(&dict, "d"), Err(MetainfoError::WrongValueType(k)) if k == "d"));
    assert_eq!(extract_optional_integer_from_dict(&dict, "b").unwrap(), Some(7));
    assert_eq!(extract_optional_integer_from_dict(&dict, "zz").unwrap(), None);
    assert_eq!(extract_string_from_dict(&dict, "d").unwrap(), "hi");
    assert!(matches!(extract_string_from_dict(&dict, "e"), Err(MetainfoError::InvalidUtf8String)));
    assert_eq!(extract_optional_string_from_dict(&dict, "d").unwrap(), Some("hi".to_string()));
    assert_eq!(extract_optional_string_from_dict(&dict, "zz").unwrap(), None);
    assert_eq!(extract_bytes_from_dict(&dict, "e").unwrap(), vec![0xff, 0xfe]);
    assert_eq!(extract_string_list_from_dict(&dict, "c").unwrap(), vec!["x".to_string(), "y".to_string()]);
    assert!(matches!(extract_string_list_from_dict(&dict, "f"), Err(MetainfoError::WrongValueType(k)) if k == "f"));
    assert_eq!(extract_bencode_list_from_dict(&dict, "c").unwrap().len(), 2);
    assert!(matches!(extract_bencode_from_dict(&dict, "b").unwrap(), Bencode::Integer(7)));
    let lengths = extract_list_from_dict(&dict, "f", |v: Bencode| match v {
        Bencode::Integer(n) => Ok(n),
        _ => Err(MetainfoError::IntegerOverflow),
    })
    .unwrap();
    assert_eq!(lengths, vec![1]);
    assert!(extract_optional_list_from_dict(&dict, "zz", |_v: Bencode| Ok(0u8)).unwrap().is_none());
    assert!(matches!(
        extract_optional_list_from_dict(&dict, "c", |_v: Bencode| Err::<u8, _>(MetainfoError::InvalidPiecesLength)),
        Err(MetainfoError::InvalidPiecesLength)
    ));
}

#[test]
fn info_dictionary_reads_and_hashes() {
    let bytes = info_bytes(2);
    let info = InfoDictionary::try_from(Decoder::new(&bytes).decode().unwrap()).unwrap();
    assert_eq!(info.name, "a.txt");
    assert_eq!(info.piece_length, 32768);
    assert_eq!(info.piece_count(), 2);
    assert_eq!(info.length(), 40000);
    assert_eq!(info.piece_len(0), 32768);
    assert_eq!(info.piece_len(1), 40000 - 32768);
    assert_eq!(info.piece_len(2), 0);
    let second: Vec<u8> = (20..40).collect();
    assert_eq!(info.piece_hash(1).unwrap().to_vec(), second);
    assert!(info.piece_hash(2).is_none());
    // Keys were already in order, so the client's re-encoding is the input.
    assert_eq!(encode(&info.to_bencode()), bytes);
    let expected: [u8; 20] = Sha1::digest(&bytes).into();
    assert_eq!(info.info_hash, expected);
}

#[test]
fn info_dictionary_errors() {
    let no_layout = b"d4:name1:a12:piece lengthi1e6:pieces0:e";
    assert!(matches!(
        InfoDictionary::try_from(Decoder::new(no_layout).decode().unwrap()),
        Err(MetainfoError::MissingFilesAndLength)
    ));
    let both = b"d5:filesld6:lengthi1e4:pathl1:xeee6:lengthi1e4:name1:a12:piece lengthi1e6:pieces0:e";
    assert!(matches!(
        InfoDictionary::try_from(Decoder::new(both).decode().unwrap()),
        Err(MetainfoError::BothFilesAndLength)
    ));
    let bad_pieces = b"d6:lengthi1e4:name1:a12:piece lengthi1e6:pieces3:abce";
    assert!(matches!(
        InfoDictionary::try_from(Decoder::new(bad_pieces).decode().unwrap()),
        Err(MetainfoError::InvalidPiecesLength)
    ));
    assert!(matches!(InfoDictionary::try_from(Bencode::Integer(1)), Err(MetainfoError::NotADictionary)));
}

#[test]
fn multi_file_layouts_add_up() {
    let bytes = b"d5:filesld6:lengthi5e4:pathl1:a1:beed6:lengthi7e4:pathl1:ceee4:name1:r12:piece lengthi8e6:pieces40:0123456789012345678901234567890123456789e";
    let info = InfoDictionary::try_from(Decoder::new(bytes).decode().unwrap()).unwrap();
    assert_eq!(info.length(), 12);
    assert_eq!(info.piece_len(1), 4);
    let file = InfoDictionaryFile::new(5, vec!["a".to_string()]);
    assert_eq!(file.length(), 5);
    assert_eq!(FileLayout::MultiFile(vec![file, InfoDictionaryFile::new(2, vec![])]).length(), 7);
    assert_eq!(FileLayout::SingleFile(9).length(), 9);
    assert_eq!(info.checked_length(), Some(12));
    assert_eq!(FileLayout::SingleFile(u64::MAX).checked_length(), Some(u64::MAX));
    let huge = FileLayout::MultiFile(vec![
        InfoDictionaryFile::new(u64::MAX, vec!["a".to_string()]),
        InfoDictionaryFile::new(1, vec!["b".to_string()]),
    ]);
    assert_eq!(huge.checked_length(), None);
    assert!(matches!(
        InfoDictionaryFile::try_from(Decoder::new(b"d6:lengthi1ee").decode().unwrap()),
        Err(MetainfoError::MissingKey(k)) if k == "path"
    ));
}

#[test]
fn metainfo_reads_announce_and_info() {
    let mut bytes = b"d8:announce3:url4:info".to_vec();
    bytes.extend(info_bytes(2));
    bytes.push(b'e');
    let torrent = Metainfo::try_from(Decoder::new(&bytes).decode().unwrap()).unwrap();
    assert_eq!(torrent.announce.as_deref(), Some("url"));
    let expected: [u8; 20] = Sha1::digest(&info_bytes(2)).into();
    assert_eq!(torrent.info_hash(), expected);
    assert!(matches!(
        Metainfo::try_from(Decoder::new(b"d8:announce3:urle").decode().unwrap()),
        Err(MetainfoError::MissingKey(k)) if k == "info"
    ));
}

#[test]
fn blocks_tile_a_piece() {
    let blocks: Vec<(u32, u32)> = populate_remaining_blocks(40000).into_iter().collect();
    assert_eq!(blocks, vec![(0, BLOCK_SIZE), (16384, BLOCK_SIZE), (32768, 40000 - 32768)]);
    assert!(populate_remaining_blocks(0).is_empty());
    let exact: Vec<(u32, u32)> = populate_remaining_blocks(32768).into_iter().collect();
    assert_eq!(exact, vec![(0, 16384), (16384, 16384)]);
}

#[test]
fn piece_manager_claims_each_piece_once() {
    let mut manager = PieceManager::new(4, 16, 64);
    let mut peer = Bitfield::new(4);
    peer.set(1);
    peer.set(3);
    assert_eq!(manager.claim_piece(&peer), Some(1));
    assert_eq!(manager.claim_piece(&peer), Some(3));
    assert_eq!(manager.claim_piece(&peer), None);
    manager.release(1);
    assert_eq!(manager.claim_piece(&peer), Some(1));
    manager.mark_have(3);
    manager.release(3);
    assert!(manager.have().has(3));
    assert!(!manager.is_complete());
    assert_eq!(manager.piece_len(3), 16);
    assert_eq!(manager.piece_len(4), 0);
}

#[test]
fn bitvec_bitfield() {
    let mut field = Bitfield::new(10);
    assert_eq!(field.as_bytes(), &[0, 0]);
    field.set(0);
    field.set(9);
    assert_eq!(field.as_bytes(), &[0b1000_0000, 0b0100_0000]);
    assert!(field.has(9));
    assert!(!field.has(10));
    assert_eq!(field.count_ones(), 2);
    assert_eq!(field.count_zeros(), 8);
    let theirs = Bitfield::from_bytes(vec![0b1100_0000, 0b0100_0000], 10);
    assert_eq!(field.missing(&theirs), vec![1]);
    assert!(!theirs.is_complete());
    assert!(Bitfield::from_bytes(vec![0xff], 8).is_complete());
    assert!(Bitfield::default().is_complete());
}

#[test]
fn progress_counts_distinct_blocks() {
    let mut progress = Progress::new(2);
    progress.insert(0);
    progress.insert(0);
    assert!(!progress.is_complete());
    progress.insert(16384);
    assert!(progress.is_complete());
}

fn engine() -> Engine {
    let bytes = info_bytes(2);
    let info = InfoDictionary::try_from(Decoder::new(&bytes).decode().unwrap()).unwrap();
    let manager = PieceManager::new(info.piece_count(), 32768, 40000);
    Engine::new(Arc::new(info), manager)
}

fn drain(engine: &mut Engine, peer: u64) -> Vec<PeerCommand> {
    let mut sent = Vec::new();
    if engine.begin_pipeline(peer) {
        while let Some(command) = engine.next_request(peer) {
            let PeerCommand::Request { begin, .. } = command;
            engine.request_sent(peer, begin);
            sent.push(command);
        }
    }
    sent
}

#[test]
fn engine_requests_the_blocks_of_a_claimed_piece() {
    let mut engine = engine();
    let step = engine.handle_peer_event(1, PeerEvent::Connected);
    assert!(!step.populate);
    // Choked: nothing is requested.
    let step = engine.handle_peer_event(1, PeerEvent::Bitfield(vec![0b1100_0000]));
    assert!(step.populate);
    assert!(drain(&mut engine, 1).is_empty());
    let step = engine.handle_peer_event(1, PeerEvent::Unchoke);
    assert!(step.populate);
    let sent = drain(&mut engine, 1);
    assert_eq!(
        sent,
        vec![
            PeerCommand::Request { index: 0, begin: 0, length: 16384 },
            PeerCommand::Request { index: 0, begin: 16384, length: 16384 },
        ]
    );
    // A second peer gets the other piece.
    engine.handle_peer_event(2, PeerEvent::Connected);
    engine.handle_peer_event(2, PeerEvent::Bitfield(vec![0b1100_0000]));
    engine.handle_peer_event(2, PeerEvent::Unchoke);
    assert_eq!(drain(&mut engine, 2), vec![PeerCommand::Request { index: 1, begin: 0, length: 40000 - 32768 }]);

    // Blocks arrive and go to disk.
    let step = engine.handle_peer_event(1, PeerEvent::Block { piece_index: 0, begin: 0, data: vec![1, 2] });
    let block = step.store.unwrap();
    assert_eq!((block.index, block.begin, block.data), (0, 0, vec![1, 2]));
    assert!(step.populate);
    assert!(drain(&mut engine, 1).is_empty());

    // A choke puts the request in flight back on the queue.
    engine.handle_peer_event(1, PeerEvent::Choke);
    engine.handle_peer_event(1, PeerEvent::Unchoke);
    assert_eq!(drain(&mut engine, 1), vec![PeerCommand::Request { index: 0, begin: 16384, length: 16384 }]);

    // A disconnect releases the piece for someone else.
    engine.handle_peer_event(2, PeerEvent::Disconnected);
    engine.handle_peer_event(3, PeerEvent::Connected);
    engine.handle_peer_event(3, PeerEvent::Have(1));
    engine.handle_peer_event(3, PeerEvent::Have(1000));
    engine.handle_peer_event(3, PeerEvent::Unchoke);
    assert!(drain(&mut engine, 3).is_empty());
    engine.handle_peer_event(3, PeerEvent::Bitfield(vec![0b0100_0000]));
    assert_eq!(drain(&mut engine, 3), vec![PeerCommand::Request { index: 1, begin: 0, length: 40000 - 32768 }]);

    engine.handle_disk_event(DiskEvent::PieceVerified(0));
    assert!(engine.is_endgame());
    engine.endgame_mode();
    assert!(drain(&mut engine, 1).is_empty());
}
