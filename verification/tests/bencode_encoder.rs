//! The bencode encoder: each case pins an exact byte sequence.

use tafukt::bencode::encoder::{encode, encode_into};
use tafukt::bencode::{Bencode, Dictionary};

fn dictionary<'a>(pairs: Vec<(&'a [u8], Bencode<'a>)>) -> Dictionary<'a> {
    let mut entries = Dictionary::new();
    for (key, value) in pairs {
        entries.insert(key, value);
    }
    entries
}

#[test]
fn tests_integer_positive() {
    assert_eq!(encode(&Bencode::Integer(42)), b"i42e");
}

#[test]
fn tests_integer_negative() {
    assert_eq!(encode(&Bencode::Integer(-42)), b"i-42e");
}

#[test]
fn integer_zero() {
    assert_eq!(encode(&Bencode::Integer(0)), b"i0e");
}

#[test]
fn integer_extremes() {
    assert_eq!(encode(&Bencode::Integer(i64::MAX)), b"i9223372036854775807e");
    assert_eq!(encode(&Bencode::Integer(i64::MIN)), b"i-9223372036854775808e");
}

#[test]
fn tests_string_normal() {
    assert_eq!(encode(&Bencode::String(b"spam")), b"4:spam");
}

#[test]
fn string_empty() {
    assert_eq!(encode(&Bencode::String(b"")), b"0:");
}

#[test]
fn string_arbitrary_bytes() {
    assert_eq!(encode(&Bencode::String(&[0xff, 0x00, 0xfe])), b"3:\xff\x00\xfe");
}

#[test]
fn tests_list_empty() {
    assert_eq!(encode(&Bencode::List(vec![])), b"le");
}

#[test]
fn tests_list_with_items() {
    let value = Bencode::List(vec![Bencode::String(b"spam"), Bencode::Integer(42)]);

    assert_eq!(encode(&value), b"l4:spami42ee");
}

#[test]
fn tests_dictionary_empty() {
    assert_eq!(encode(&Bencode::Dictionary(Dictionary::new())), b"de");
}

#[test]
fn dictionary_sorts_keys() {
    let entries = dictionary(vec![
        (b"spam".as_slice(), Bencode::String(b"eggs")),
        (b"cow".as_slice(), Bencode::String(b"moo")),
    ]);

    assert_eq!(encode(&Bencode::Dictionary(entries)), b"d3:cow3:moo4:spam4:eggse");
}

#[test]
fn dictionary_sorts_bytewise() {
    let entries = dictionary(vec![
        (b"b".as_slice(), Bencode::Integer(3)),
        (b"ab".as_slice(), Bencode::Integer(2)),
        (b"a".as_slice(), Bencode::Integer(1)),
    ]);

    assert_eq!(encode(&Bencode::Dictionary(entries)), b"d1:ai1e2:abi2e1:bi3ee");
}

#[test]
fn dictionary_insert_replaces_an_equal_key() {
    let entries = dictionary(vec![
        (b"k".as_slice(), Bencode::Integer(1)),
        (b"k".as_slice(), Bencode::Integer(2)),
    ]);

    assert_eq!(entries.len(), 1);
    assert_eq!(encode(&Bencode::Dictionary(entries)), b"d1:ki2ee");
}

#[test]
fn nested() {
    let inner = Bencode::List(vec![Bencode::String(b"a"), Bencode::String(b"b")]);
    let entries = dictionary(vec![(b"list".as_slice(), inner)]);

    assert_eq!(encode(&Bencode::Dictionary(entries)), b"d4:listl1:a1:bee");
}

#[test]
fn encode_into_appends() {
    let mut out = Vec::new();

    encode_into(&Bencode::Integer(1), &mut out);
    encode_into(&Bencode::Integer(2), &mut out);

    assert_eq!(out, b"i1ei2e");
}
