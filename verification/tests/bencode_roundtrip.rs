//! Decoding then encoding reproduces the input exactly, and the recorded
//! spans cover exactly their values.

use tafukt::bencode::{decoder, encoder, Bencode, Dictionary};

fn round_trip(input: &[u8]) {
    let value = decoder::decode(input).expect("should decode");
    let output = encoder::encode(&value);

    assert_eq!(
        output,
        input,
        "round-trip changed the bytes\n  in:  {:?}\n  out: {:?}",
        String::from_utf8_lossy(input),
        String::from_utf8_lossy(&output),
    );
}

#[test]
fn round_trip_integers() {
    round_trip(b"i0e");
    round_trip(b"i42e");
    round_trip(b"i-42e");
    round_trip(b"i9223372036854775807e");
    round_trip(b"i-9223372036854775808e");
}

#[test]
fn round_trip_strings() {
    round_trip(b"0:");
    round_trip(b"4:spam");
    round_trip(b"3:\xff\x00\xfe");
}

#[test]
fn round_trip_lists() {
    round_trip(b"le");
    round_trip(b"l4:spami42ee");
    round_trip(b"llee");
}

#[test]
fn round_trip_dictionaries() {
    round_trip(b"de");
    round_trip(b"d3:cow3:moo4:spam4:eggse");
    round_trip(b"d4:listl1:a1:bee");
}

#[test]
fn round_trip_preserves_key_order() {
    round_trip(b"d1:ai1e2:abi2e1:bi3ee");
}

#[test]
fn round_trip_deeply_nested() {
    round_trip(b"d1:ad1:bd1:cli1ei2eeeee");
}

#[test]
fn unsorted_keys_do_not_round_trip() {
    let input = b"d4:spam4:eggs3:cow3:mooe";
    let value = decoder::decode(input).expect("should decode");
    assert_eq!(encoder::encode(&value), b"d3:cow3:moo4:spam4:eggse");
}

#[test]
fn spans_cover_exactly_their_values() {
    let data = b"d3:cow3:moo4:spami42ee";

    let decoded = decoder::decode_dictionary_with_spans(data).expect("should decode");

    let (start, end) = decoded.spans.get(b"cow".as_slice()).unwrap();
    assert_eq!(&data[start..end], b"3:moo");

    let (start, end) = decoded.spans.get(b"spam".as_slice()).unwrap();
    assert_eq!(&data[start..end], b"i42e");
}

#[test]
fn spans_cover_whole_containers() {
    let data = b"d4:infod3:cow3:mooee";

    let decoded = decoder::decode_dictionary_with_spans(data).expect("should decode");

    let (start, end) = decoded.spans.get(b"info".as_slice()).unwrap();
    let info_bytes = &data[start..end];

    assert_eq!(info_bytes, b"d3:cow3:mooe");
    assert!(decoder::decode(info_bytes).is_ok());
}

#[test]
fn spans_need_a_dictionary_at_the_top() {
    assert!(decoder::decode_dictionary_with_spans(b"li1ee").is_err());
    assert!(decoder::decode_dictionary_with_spans(b"de").unwrap().spans.get(b"x".as_slice()).is_none());
}

#[test]
fn values_built_in_code_decode_back_from_their_encoding() {
    let mut inner = Dictionary::new();
    inner.insert(b"zeta", Bencode::Integer(i64::MIN));
    inner.insert(b"alpha", Bencode::String(b"x"));
    let mut outer = Dictionary::new();
    outer.insert(b"list", Bencode::List(vec![Bencode::Integer(-7), Bencode::Dictionary(inner)]));
    outer.insert(b"a", Bencode::String(b""));
    let value = Bencode::Dictionary(outer);
    value.check_well_formed();

    let bytes = encoder::encode(&value);
    assert_eq!(bytes, b"d1:a0:4:listli-7ed5:alpha1:x4:zetai-9223372036854775808eeee".to_vec());
    let back = decoder::decode(&bytes).expect("should decode");
    assert_eq!(encoder::encode(&back), bytes);
    let list = back.as_dictionary().unwrap().get(b"list").unwrap().as_list().unwrap();
    assert_eq!(list[0].as_i64().unwrap(), -7);
    let inner = list[1].as_dictionary().unwrap();
    assert_eq!(inner.key_at(0), b"alpha");
    assert_eq!(inner.get(b"zeta").unwrap().as_i64().unwrap(), i64::MIN);
}
