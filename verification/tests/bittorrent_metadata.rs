//! Hex, magnet links, `.torrent` parsing and the path checks.

use sha1::{Digest, Sha1};
use tafukt::bittorrent::hex::{decode_hex_array, hex_value, to_hex, HexError};
use tafukt::bittorrent::magnet::{parse_peer_hint, HintAddress, Magnet, MagnetError};
use tafukt::bittorrent::metainfo::{Metainfo, MetainfoError};
use tafukt::bittorrent::util::{as_u64, check_path_component, get_key, get_opt, get_opt_string_lossy, percent_decode};
use tafukt::bencode::decoder::decode;
use tafukt::bencode::Bencode;

const HASH_HEX: &str = "0123456789abcdef0123456789abcdef01234567";
const HASH: [u8; 20] = [
    0x01, 0x23, 0x45, 0x67, 0x89, 0xab, 0xcd, 0xef, 0x01, 0x23, 0x45, 0x67, 0x89, 0xab, 0xcd, 0xef, 0x01, 0x23, 0x45, 0x67,
];

#[test]
fn hex_digits_in_both_cases() {
    assert_eq!(hex_value(b'0').unwrap(), 0);
    assert_eq!(hex_value(b'9').unwrap(), 9);
    assert_eq!(hex_value(b'a').unwrap(), 10);
    assert_eq!(hex_value(b'F').unwrap(), 15);
    assert!(matches!(hex_value(b'g'), Err(HexError::InvalidCharacter('g'))));
}

#[test]
fn hex_round_trips() {
    let bytes: [u8; 20] = decode_hex_array(HASH_HEX).unwrap();
    assert_eq!(bytes, HASH);
    assert_eq!(to_hex(&bytes), HASH_HEX);
    assert_eq!(to_hex(&[0x00, 0xff, 0x0a]), "00ff0a");
    assert_eq!(to_hex(&[]), "");
}

#[test]
fn hex_errors() {
    assert!(matches!(
        decode_hex_array::<2>("abc"),
        Err(HexError::WrongLength { expected: 4, got: 3 })
    ));
    assert!(matches!(decode_hex_array::<2>("a1zq"), Err(HexError::InvalidCharacter('z'))));
}

#[test]
fn percent_decoding_is_lenient() {
    assert_eq!(percent_decode("a+b%20c"), b"a b c");
    assert_eq!(percent_decode("%41%4a%4A"), b"AJJ");
    assert_eq!(percent_decode("100%"), b"100%");
    assert_eq!(percent_decode("%ZZ%4"), b"%ZZ%4");
    assert_eq!(percent_decode(""), b"");
}

#[test]
fn magnet_with_hex_hash_and_hints() {
    let link = format!(
        "magnet:?xt=urn:btih:{HASH_HEX}&dn=my+file&tr=http%3A%2F%2Ft.example%2Fannounce&x.pe=1.2.3.4:6881&tr=udp://u&junk&xl=5"
    );
    let magnet = Magnet::parse(&link).unwrap();
    assert_eq!(magnet.info_hash, HASH);
    assert_eq!(magnet.display_name, b"my file");
    assert_eq!(magnet.trackers, vec![b"http://t.example/announce".to_vec(), b"udp://u".to_vec()]);
    assert_eq!(magnet.peer_addresses, vec![HintAddress { ip: vec![1, 2, 3, 4], port: 6881 }]);

    let parsed: Magnet = link.parse().unwrap();
    assert_eq!(parsed.info_hash, HASH);
}

#[test]
fn magnet_peer_hints_that_are_not_addresses_are_skipped() {
    let link = format!(
        "magnet:?xt=urn:btih:{HASH_HEX}&x.pe=bogus&x.pe=%5B2001%3Adb8%3A%3A1%5D%3A6881&x.pe=1.2.3.4&x.pe=%FF:1&x.pe=10.0.0.1:80"
    );
    let magnet = Magnet::parse(&link).unwrap();
    let mut v6 = vec![0u8; 16];
    v6[0] = 0x20;
    v6[1] = 0x01;
    v6[2] = 0x0d;
    v6[3] = 0xb8;
    v6[15] = 1;
    assert_eq!(
        magnet.peer_addresses,
        vec![HintAddress { ip: v6, port: 6881 }, HintAddress { ip: vec![10, 0, 0, 1], port: 80 }]
    );
}

#[test]
fn peer_hint_parsing() {
    assert_eq!(parse_peer_hint("1.2.3.4:6881"), Some(HintAddress { ip: vec![1, 2, 3, 4], port: 6881 }));
    assert_eq!(parse_peer_hint("127.0.0.1%3A1"), Some(HintAddress { ip: vec![127, 0, 0, 1], port: 1 }));
    assert_eq!(parse_peer_hint("[::1]:2").unwrap().ip.len(), 16);
    assert_eq!(parse_peer_hint("bogus"), None);
    assert_eq!(parse_peer_hint("1.2.3.4"), None);
    assert_eq!(parse_peer_hint("1.2.3.4:70000"), None);
    assert_eq!(parse_peer_hint("%FF1.2.3.4:1"), None);
}

#[test]
fn magnet_with_base32_hash_in_either_case() {
    // The 20 bytes of HASH in base32.
    let upper = "AERUKZ4JVPG66AJDIVTYTK6N54ASGRLH";
    let lower = upper.to_lowercase();
    for text in [upper.to_string(), lower] {
        let magnet = Magnet::parse(&format!("magnet:?xt=urn:btih:{text}")).unwrap();
        assert_eq!(magnet.info_hash, HASH);
        assert!(magnet.display_name.is_empty());
        assert!(magnet.trackers.is_empty());
    }
}

#[test]
fn magnet_errors() {
    assert!(matches!(Magnet::parse("http://x"), Err(MagnetError::InvalidMagnetPrefix)));
    assert!(matches!(Magnet::parse("magnet:?dn=x"), Err(MagnetError::MissingXt)));
    assert!(matches!(Magnet::parse("magnet:?xt=urn:sha1:abc"), Err(MagnetError::NotBittorrentHash)));
    assert!(matches!(Magnet::parse("magnet:?xt=urn:btih:abc"), Err(MagnetError::InvalidHashLength)));
    assert!(matches!(
        Magnet::parse("magnet:?xt=urn:btih:0123456789abcdef0123456789abcdef0123456z"),
        Err(MagnetError::Hex(HexError::InvalidCharacter('z')))
    ));
    assert!(matches!(
        Magnet::parse("magnet:?xt=urn:btih:1111111111111111111111111111111!"),
        Err(MagnetError::InvalidBase32)
    ));
}

#[test]
fn magnet_keeps_the_last_hash() {
    let link = format!("magnet:?xt=urn:btih:{}&xt=urn:btih:{HASH_HEX}", "f".repeat(40));
    assert_eq!(Magnet::parse(&link).unwrap().info_hash, HASH);
}

fn single_file_torrent(pieces: usize, length: i64) -> Vec<u8> {
    let mut info = Vec::new();
    info.extend_from_slice(format!("d6:lengthi{length}e4:name5:a.txt12:piece lengthi16e6:pieces{}:", pieces * 20).as_bytes());
    info.extend(std::iter::repeat(7u8).take(pieces * 20));
    info.extend_from_slice(b"7:privatei1ee");
    let mut out = b"d8:announce16:http://t.example13:announce-listll3:a:13:a:2el3:b:1ee4:info".to_vec();
    out.extend_from_slice(&info);
    out.push(b'e');
    out
}

#[test]
fn reads_a_single_file_torrent() {
    let data = single_file_torrent(2, 20);
    let torrent = Metainfo::from_bytes(&data).unwrap();
    assert_eq!(torrent.announce.as_deref(), Some("http://t.example"));
    assert_eq!(torrent.announce_list, vec![vec!["a:1".to_string(), "a:2".to_string()], vec!["b:1".to_string()]]);
    assert_eq!(torrent.info.name, b"a.txt");
    assert_eq!(torrent.info.length, 20);
    assert_eq!(torrent.info.piece_length, 16);
    assert_eq!(torrent.info.pieces.len(), 2);
    assert!(torrent.info.private);
    assert_eq!(torrent.info.files.len(), 1);
    assert_eq!(torrent.info.files[0].length, 20);
    assert_eq!(torrent.info.files[0].offset, 0);
    assert_eq!(torrent.info.files[0].path, vec!["a.txt".to_string()]);

    let start = data.windows(4).position(|w| w == b"info").unwrap() + 4;
    let expected: [u8; 20] = Sha1::digest(&data[start..data.len() - 1]).into();
    assert_eq!(torrent.info_hash, expected);
}

#[test]
fn reads_a_multi_file_torrent_with_offsets() {
    let mut data = b"d4:infod5:filesld6:lengthi10e4:pathl3:dir5:a.txteed6:lengthi30e4:pathl5:b.txteee4:name4:root12:piece lengthi16e6:pieces60:".to_vec();
    data.extend(std::iter::repeat(1u8).take(60));
    data.extend_from_slice(b"ee");
    let torrent = Metainfo::from_bytes(&data).unwrap();
    assert_eq!(torrent.info.length, 40);
    assert_eq!(torrent.info.files.len(), 2);
    assert_eq!(torrent.info.files[0].path, vec!["root".to_string(), "dir".to_string(), "a.txt".to_string()]);
    assert_eq!(torrent.info.files[1].path, vec!["root".to_string(), "b.txt".to_string()]);
    assert_eq!(torrent.info.files[1].offset, 10);
    assert!(torrent.announce.is_none());
    assert!(torrent.announce_list.is_empty());
    assert!(!torrent.info.private);
}

#[test]
fn file_paths_are_read_as_text_lossily() {
    let mut data = b"d4:infod5:filesld6:lengthi5e4:pathl2:d\xff6:a\xfe.txteee4:name2:r\xff12:piece lengthi16e6:pieces20:".to_vec();
    data.extend(std::iter::repeat(1u8).take(20));
    data.extend_from_slice(b"ee");
    let torrent = Metainfo::from_bytes(&data).unwrap();
    assert_eq!(torrent.info.name, b"r\xff");
    assert_eq!(
        torrent.info.files[0].path,
        vec!["r\u{fffd}".to_string(), "d\u{fffd}".to_string(), "a\u{fffd}.txt".to_string()]
    );

    let mut single = b"d4:infod6:lengthi5e4:name2:\xffz12:piece lengthi16e6:pieces20:".to_vec();
    single.extend(std::iter::repeat(1u8).take(20));
    single.extend_from_slice(b"ee");
    let torrent = Metainfo::from_bytes(&single).unwrap();
    assert_eq!(torrent.info.files[0].path, vec!["\u{fffd}z".to_string()]);
}

#[test]
fn refuses_malformed_torrents() {
    assert!(matches!(Metainfo::from_bytes(&single_file_torrent(3, 20)), Err(MetainfoError::InvalidPieceCount)));
    assert!(matches!(Metainfo::from_bytes(&single_file_torrent(2, -1)), Err(MetainfoError::NegativeLength)));
    assert!(matches!(Metainfo::from_bytes(b"de"), Err(MetainfoError::KeyNotFound("info"))));
    assert!(matches!(Metainfo::from_bytes(b"i1e"), Err(MetainfoError::DecoderError(_))));
    let mut traversal = b"d4:infod5:filesld6:lengthi1e4:pathl2:..eee4:name1:r12:piece lengthi16e6:pieces20:".to_vec();
    traversal.extend(std::iter::repeat(1u8).take(20));
    traversal.extend_from_slice(b"ee");
    assert!(matches!(Metainfo::from_bytes(&traversal), Err(MetainfoError::InvalidPath)));
    let mut both = b"d4:infod5:filesle6:lengthi1e4:name1:r12:piece lengthi16e6:pieces20:".to_vec();
    both.extend(std::iter::repeat(1u8).take(20));
    both.extend_from_slice(b"ee");
    assert!(matches!(Metainfo::from_bytes(&both), Err(MetainfoError::BothFileKeys)));
}

#[test]
fn path_components_that_escape_are_refused() {
    assert!(check_path_component(b"ok.txt").is_ok());
    for bad in [&b""[..], b".", b"..", b"a/b", b"a\\b", b"a\0b"] {
        assert!(matches!(check_path_component(bad), Err(MetainfoError::InvalidPath)), "for {bad:?}");
    }
    assert!(check_path_component(b"...").is_ok());
}

#[test]
fn dictionary_helpers() {
    let value = decode(b"d1:ai-1e1:bi5e1:c2:\xff!e").unwrap();
    let dict = value.as_dictionary().unwrap();
    assert!(matches!(get_key(dict, "zzz"), Err(MetainfoError::KeyNotFound("zzz"))));
    assert!(get_opt(dict, "zzz").is_none());
    assert!(matches!(as_u64(get_key(dict, "a").unwrap()), Err(MetainfoError::NegativeLength)));
    assert_eq!(as_u64(get_key(dict, "b").unwrap()).unwrap(), 5);
    assert_eq!(get_opt_string_lossy(dict, "c").unwrap().unwrap(), "\u{fffd}!");
    assert!(get_opt_string_lossy(dict, "zzz").unwrap().is_none());
    assert!(get_opt_string_lossy(dict, "b").is_err());
    assert!(matches!(get_opt(dict, "b"), Some(Bencode::Integer(5))));
}

#[test]
fn decoded_hex_is_written_back_in_lowercase() {
    let bytes: [u8; 4] = decode_hex_array("DeAdBEef").unwrap();
    assert_eq!(to_hex(&bytes), "deadbeef");
    assert_eq!(to_hex(&[0xde, 0xad, 0xbe, 0xef]).len(), 8);
}
