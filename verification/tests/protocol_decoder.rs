//! The client's own decoder: integers and the messages of its errors.

use tafukt::client::protocol::decoder::{bytes_to_integer, Decoder, DecoderError};
use tafukt::client::protocol::encoder::encode;
use tafukt::client::protocol::{Bencode, Dictionary};

#[test]
fn test_decode_zero() {
    let bencode = "i0e";
    let mut decoder = Decoder::new(bencode.as_bytes());
    let result = decoder.decode();

    assert_eq!(result.is_ok(), true);
    match result.ok().unwrap() {
        Bencode::Integer(num) => assert_eq!(num, 0),
        _ => panic!("not supposed to reach here!"),
    }
}

#[test]
fn test_decode_negative_zero() {
    let bencode = "i-0e";
    let mut decoder = Decoder::new(bencode.as_bytes());
    let result = decoder.decode();

    assert_eq!(result.is_err(), true);
    let err = result.err().unwrap();
    assert_eq!(err.to_string(), "integer is negative zero")
}

#[test]
fn test_decode_positive_number() {
    let bencode = "i69e";
    let mut decoder = Decoder::new(bencode.as_bytes());
    let result = decoder.decode();

    assert_eq!(result.is_ok(), true);
    match result.ok().unwrap() {
        Bencode::Integer(num) => assert_eq!(num, 69),
        _ => panic!("not supposed to reach here!"),
    }
}

#[test]
fn test_decode_negative_number() {
    let bencode = "i-420e";
    let mut decoder = Decoder::new(bencode.as_bytes());
    let result = decoder.decode();

    assert_eq!(result.is_ok(), true);
    match result.ok().unwrap() {
        Bencode::Integer(num) => assert_eq!(num, -420),
        _ => panic!("not supposed to reach here!"),
    }
}

#[test]
fn test_decode_leading_zero() {
    let bencode = "i010e";
    let mut decoder = Decoder::new(bencode.as_bytes());
    let result = decoder.decode();

    assert_eq!(result.is_err(), true);

    let err = result.err().unwrap();
    assert_eq!(err.to_string(), "integer is leading with zeros")
}

#[test]
fn decoder_errors_have_their_messages() {
    let cases: Vec<(&[u8], &str)> = vec![
        (b"", "no bytes to read"),
        (b"i1ei2e", "unexpected extra data"),
        (b"i1-2e", "invalid integer syntax"),
        (b"x", "invalid byte for type: x"),
        (b"i-", "no bytes to read"),
    ];
    for (input, message) in cases {
        let err = Decoder::new(input).decode().err().unwrap();
        assert_eq!(err.to_string(), message, "for {input:?}");
    }
    assert!(matches!(Decoder::new(b"ie").decode(), Err(DecoderError::InvalidIntegerSyntax)));
}

#[test]
fn decoder_builds_owned_values() {
    let value = Decoder::new(b"d4:listl1:ai7ee3:key5:valuee").decode().unwrap();
    match &value {
        Bencode::Dictionary(entries) => {
            assert_eq!(entries.len(), 2);
            assert_eq!(entries.key_at(0), b"key");
            assert_eq!(entries.key_at(1), b"list");
            match entries.value_at(1) {
                Bencode::List(items) => {
                    assert!(matches!(&items[0], Bencode::String(s) if s == b"a"));
                    assert!(matches!(&items[1], Bencode::Integer(7)));
                }
                other => panic!("expected a list, got {other:?}"),
            }
        }
        other => panic!("expected a dictionary, got {other:?}"),
    }
    assert_eq!(encode(&value), b"d3:key5:value4:listl1:ai7eee");
}

#[test]
fn encode_writes_keys_in_sorted_order() {
    let mut d = Dictionary::new();
    d.insert(b"b".to_vec(), Bencode::Integer(-1));
    d.insert(b"a".to_vec(), Bencode::String(b"xy".to_vec()));
    assert_eq!(encode(&Bencode::Dictionary(d)), b"d1:a2:xy1:bi-1ee");
    assert_eq!(encode(&Bencode::List(vec![])), b"le");
    assert_eq!(encode(&Bencode::String(vec![])), b"0:");
}

#[test]
fn inserting_an_existing_key_replaces_its_value() {
    let mut d = Dictionary::new();
    d.insert(b"k".to_vec(), Bencode::Integer(1));
    d.insert(b"k".to_vec(), Bencode::Integer(2));
    assert_eq!(d.len(), 1);
    assert!(matches!(d.get(b"k"), Some(Bencode::Integer(2))));
    assert!(d.get(b"z").is_none());
    assert_eq!(encode(&Bencode::Dictionary(d)), b"d1:ki2ee");
}

#[test]
fn bytes_to_integer_reads_like_parse() {
    assert_eq!(bytes_to_integer(b"42".to_vec()).unwrap(), 42);
    assert_eq!(bytes_to_integer(b"+42".to_vec()).unwrap(), 42);
    assert_eq!(bytes_to_integer(b"-42".to_vec()).unwrap(), -42);
    assert_eq!(bytes_to_integer(b"007".to_vec()).unwrap(), 7);
    assert_eq!(bytes_to_integer(b"-0".to_vec()).unwrap(), 0);
    assert_eq!(bytes_to_integer(b"9223372036854775807".to_vec()).unwrap(), i64::MAX);
    assert_eq!(bytes_to_integer(b"-9223372036854775808".to_vec()).unwrap(), i64::MIN);
    for bad in [&b""[..], b"+", b"-", b"9223372036854775808", b"-9223372036854775809", b"1 ", b"\xff1", b"99999999999999999999999"] {
        assert!(
            matches!(bytes_to_integer(bad.to_vec()), Err(DecoderError::InvalidIntegerSyntax)),
            "for {bad:?}"
        );
    }
}
