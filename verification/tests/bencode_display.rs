//! How decoded values read when shown, and what the spans of a top-level
//! dictionary hold.

use tafukt::bencode::decoder::{decode, decode_dictionary_with_spans};
use tafukt::bencode::encoder::encode;
use tafukt::bencode::Bencode;

fn shown(input: &[u8]) -> String {
    decode(input).expect("should decode").to_string()
}

#[test]
fn integers_show_in_decimal() {
    assert_eq!(shown(b"i42e"), "42");
    assert_eq!(shown(b"i-5e"), "-5");
    assert_eq!(shown(b"i0e"), "0");
    assert_eq!(shown(b"i-9223372036854775808e"), "-9223372036854775808");
}

#[test]
fn short_text_shows_quoted() {
    assert_eq!(shown(b"4:spam"), "\"spam\"");
    assert_eq!(shown(b"0:"), "\"\"");
}

#[test]
fn binary_shows_its_length() {
    assert_eq!(shown(b"3:\xff\xfe\xfd"), "<3 bytes binary>");
}

#[test]
fn long_text_is_cut_at_sixty_bytes() {
    let mut input = b"100:".to_vec();
    input.extend(std::iter::repeat(b'a').take(100));
    let expected = format!("\"{}\u{2026}\" (100 bytes)", "a".repeat(60));
    assert_eq!(shown(&input), expected);

    let mut exact = b"60:".to_vec();
    exact.extend(std::iter::repeat(b'b').take(60));
    assert_eq!(shown(&exact), format!("\"{}\"", "b".repeat(60)));
}

#[test]
fn long_text_is_cut_on_a_character_boundary() {
    let text = "\u{e9}".repeat(40);
    let mut input = format!("{}:", text.len()).into_bytes();
    input.extend_from_slice(text.as_bytes());
    let expected = format!("\"{}\u{2026}\" (80 bytes)", "\u{e9}".repeat(30));
    assert_eq!(shown(&input), expected);
}

#[test]
fn containers_show_one_element_per_line() {
    assert_eq!(shown(b"le"), "[]");
    assert_eq!(shown(b"de"), "{}");
    assert_eq!(shown(b"li1ei2ee"), "[\n  1,\n  2,\n]");
    assert_eq!(shown(b"d3:cow3:mooe"), "{\n  \"cow\": \"moo\",\n}");
    assert_eq!(shown(b"d1:ali1eee"), "{\n  \"a\": [\n    1,\n  ],\n}");
}

#[test]
fn span_bytes_decode_to_the_value_under_their_key() {
    let data = b"d4:infod6:lengthi3e4:name1:xe5:otheri7ee";
    let decoded = decode_dictionary_with_spans(data).expect("should decode");
    let (start, end) = decoded.spans.get(b"info".as_slice()).unwrap();
    let from_span = decode(&data[start..end]).expect("span should decode");
    let stored = decoded.root.get(b"info".as_slice()).unwrap();
    assert_eq!(encode(&from_span), encode(stored));
    assert_eq!(&data[start..end], b"d6:lengthi3e4:name1:xe".as_slice());

    let (start, end) = decoded.spans.get(b"other".as_slice()).unwrap();
    assert!(matches!(decode(&data[start..end]), Ok(Bencode::Integer(7))));
}

#[test]
fn spans_root_equals_decoded_root() {
    let data = b"d1:ai1e1:bl1:xee";
    let decoded = decode_dictionary_with_spans(data).expect("should decode");
    let whole = decode(data).expect("should decode");
    let root_bytes = match whole {
        Bencode::Dictionary(d) => encode(&Bencode::Dictionary(d)),
        _ => panic!("expected a dictionary"),
    };
    assert_eq!(encode(&Bencode::Dictionary(decoded.root)), root_bytes);
}
