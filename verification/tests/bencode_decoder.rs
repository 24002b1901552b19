//! The bencode decoder, type by type, then the whole-input rules.

use tafukt::bencode::cursor::{Cursor, CursorError, DEPTH_MAX};
use tafukt::bencode::decoder::{decode, DecoderError};
use tafukt::bencode::Bencode;

fn ok(input: &[u8]) -> Bencode<'_> {
    decode(input).expect("expected this to decode")
}

fn err(input: &[u8]) {
    assert!(decode(input).is_err(), "expected an error for {input:?}");
}

fn err_is(input: &[u8], expected: &DecoderError) {
    match decode(input) {
        Err(actual) => assert_eq!(
            std::mem::discriminant(&actual),
            std::mem::discriminant(expected),
            "wrong error for {input:?}: got {actual:?}, wanted {expected:?}"
        ),
        Ok(value) => panic!("expected an error for {input:?}, got {value:?}"),
    }
}

fn as_int(value: &Bencode) -> i64 {
    match value {
        Bencode::Integer(number) => *number,
        other => panic!("expected an integer, got {other:?}"),
    }
}

fn as_str<'a>(value: &Bencode<'a>) -> &'a [u8] {
    match value {
        Bencode::String(bytes) => bytes,
        other => panic!("expected a string, got {other:?}"),
    }
}

#[test]
fn integer_positive() {
    assert_eq!(as_int(&ok(b"i42e")), 42);
}

#[test]
fn integer_negative() {
    assert_eq!(as_int(&ok(b"i-42e")), -42);
}

#[test]
fn integer_zero_is_legal() {
    assert_eq!(as_int(&ok(b"i0e")), 0);
}

#[test]
fn integer_rejects_leading_zero() {
    err_is(b"i03e", &DecoderError::LeadingZero);
    err_is(b"i007e", &DecoderError::LeadingZero);
}

#[test]
fn integer_rejects_negative_zero() {
    err_is(b"i-0e", &DecoderError::NegativeZero);
}

#[test]
fn integer_rejects_empty() {
    err_is(b"ie", &DecoderError::EmptyNumber);
    err_is(b"i-e", &DecoderError::EmptyNumber);
}

#[test]
fn integer_rejects_unterminated() {
    err(b"i42");
}

#[test]
fn integer_rejects_sign_in_middle() {
    err(b"i1-2e");
}

#[test]
fn integer_rejects_overflow() {
    err_is(b"i99999999999999999999999999e", &DecoderError::NumberOverflow);
}

#[test]
fn integer_accepts_both_extremes() {
    assert_eq!(as_int(&ok(b"i9223372036854775807e")), i64::MAX);
    assert_eq!(as_int(&ok(b"i-9223372036854775808e")), i64::MIN);
    err_is(b"i9223372036854775808e", &DecoderError::NumberOverflow);
    err_is(b"i-9223372036854775809e", &DecoderError::NumberOverflow);
}

#[test]
fn string_normal() {
    assert_eq!(as_str(&ok(b"4:spam")), b"spam");
}

#[test]
fn string_empty_is_legal() {
    assert_eq!(as_str(&ok(b"0:")), b"");
}

#[test]
fn string_rejects_short_data() {
    err(b"5:abc");
}

#[test]
fn string_rejects_leading_zero_length() {
    err_is(b"04:spam", &DecoderError::LeadingZero);
}

#[test]
fn string_rejects_absurd_length() {
    err(b"99999999999999999999:x");
}

#[test]
fn string_holds_arbitrary_bytes() {
    let input = b"3:\xff\xfe\xfd";
    assert_eq!(as_str(&ok(input)), &[0xff, 0xfe, 0xfd]);
}

#[test]
fn list_empty() {
    match ok(b"le") {
        Bencode::List(items) => assert!(items.is_empty()),
        other => panic!("expected a list, got {other:?}"),
    }
}

#[test]
fn list_with_items() {
    match ok(b"l4:spami42ee") {
        Bencode::List(items) => {
            assert_eq!(items.len(), 2);
            assert_eq!(as_str(&items[0]), b"spam");
            assert_eq!(as_int(&items[1]), 42);
        }
        other => panic!("expected a list, got {other:?}"),
    }
}

#[test]
fn list_rejects_unterminated() {
    err(b"l4:spam");
}

#[test]
fn dictionary_empty() {
    match ok(b"de") {
        Bencode::Dictionary(entries) => assert!(entries.is_empty()),
        other => panic!("expected a dictionary, got {other:?}"),
    }
}

#[test]
fn dictionary_with_pairs() {
    match ok(b"d3:cow3:moo4:spam4:eggse") {
        Bencode::Dictionary(entries) => {
            assert_eq!(entries.len(), 2);
            assert_eq!(as_str(entries.get(b"cow".as_slice()).unwrap()), b"moo");
            assert_eq!(as_str(entries.get(b"spam".as_slice()).unwrap()), b"eggs");
        }
        other => panic!("expected a dictionary, got {other:?}"),
    }
}

#[test]
fn dictionary_rejects_non_string_key() {
    err(b"di42e3:fooe");
}

#[test]
fn dictionary_rejects_missing_value() {
    err(b"d3:cowe");
}

#[test]
fn dictionary_keeps_keys_in_byte_order_whatever_the_input_order() {
    match ok(b"d4:spam4:eggs3:cow3:mooe") {
        Bencode::Dictionary(entries) => {
            assert_eq!(entries.len(), 2);
            assert_eq!(entries.key_at(0), b"cow");
            assert_eq!(entries.key_at(1), b"spam");
        }
        other => panic!("expected a dictionary, got {other:?}"),
    }
}

#[test]
fn nested_structures() {
    match ok(b"d4:listl1:a1:bee") {
        Bencode::Dictionary(entries) => match entries.get(b"list".as_slice()).unwrap() {
            Bencode::List(items) => {
                assert_eq!(items.len(), 2);
                assert_eq!(as_str(&items[0]), b"a");
                assert_eq!(as_str(&items[1]), b"b");
            }
            other => panic!("expected a list, got {other:?}"),
        },
        other => panic!("expected a dictionary, got {other:?}"),
    }
}

#[test]
fn accepts_reasonable_nesting() {
    let depth = 10;
    let mut input = vec![b'l'; depth];
    input.extend(std::iter::repeat(b'e').take(depth));

    assert!(decode(&input).is_ok());
}

#[test]
fn rejects_excessive_nesting() {
    let input = vec![b'l'; usize::from(DEPTH_MAX) + 1];

    err_is(&input, &DecoderError::CursorError(CursorError::TooDeep));
}

#[test]
fn accepts_nesting_up_to_the_limit() {
    let depth = usize::from(DEPTH_MAX);
    let mut input = vec![b'l'; depth];
    input.extend(std::iter::repeat(b'e').take(depth));

    assert!(decode(&input).is_ok());
}

#[test]
fn rejects_trailing_data() {
    err_is(b"i42egarbage", &DecoderError::TrailingData);
    err_is(b"4:spamX", &DecoderError::TrailingData);
}

#[test]
fn rejects_empty_input() {
    err(b"");
}

#[test]
fn rejects_unknown_type_marker() {
    err_is(b"x", &DecoderError::UnknownType('x'));
}

#[test]
fn accessors_name_the_wrong_type() {
    let value = ok(b"i7e");
    assert_eq!(value.kind(), "integer");
    assert_eq!(value.as_i64().unwrap(), 7);
    assert!(value.as_bytes().is_err());
    assert!(value.as_list().is_err());
    assert!(value.as_dictionary().is_err());
    assert_eq!(ok(b"le").kind(), "list");
    assert_eq!(ok(b"de").kind(), "dictionary");
    assert_eq!(ok(b"0:").kind(), "string");
}

#[test]
fn nested_lists_decode_up_to_the_limit() {
    for n in [1usize, 2, 10, usize::from(DEPTH_MAX)] {
        let mut input = vec![b'l'; n];
        input.extend(vec![b'e'; n]);
        assert!(decode(&input).is_ok(), "depth {n}");
    }
    let n = usize::from(DEPTH_MAX) + 1;
    let mut input = vec![b'l'; n];
    input.extend(vec![b'e'; n]);
    err_is(&input, &DecoderError::CursorError(CursorError::TooDeep));
}

#[test]
fn cursor_enters_up_to_the_limit_and_recovers() {
    let data = b"x";
    let mut c = Cursor::new(data);
    for _ in 0..DEPTH_MAX {
        assert!(c.enter().is_ok());
    }
    assert!(matches!(c.enter(), Err(CursorError::TooDeep)));
    for _ in 0..=DEPTH_MAX {
        c.leave();
    }
    c.leave();
    for _ in 0..DEPTH_MAX {
        assert!(c.enter().is_ok());
    }
    assert_eq!(c.pos(), 0);
}
