//! Reading typed values out of a decoded dictionary.
//!
//! A dictionary holds each key once, in increasing byte order.

use vstd::prelude::*;
use vstd::string::{StringExecFns, StringSliceAdditionalSpecFns};
use vstd::utf8::{decode_utf8, valid_utf8};

use crate::bencode::spec::{dict_get, SpecBencode};
use crate::client::protocol::{lemma_values_view, values_view, Bencode, Dictionary};
use crate::text::string_from_utf8;

use super::error::{MetainfoError, SpecMetainfoError};

verus! {

/// The value under `key` in a dictionary's entries.
pub open spec fn lookup(dict: Seq<(Seq<u8>, SpecBencode)>, key: Seq<u8>) -> Option<SpecBencode> {
    dict_get(dict, key)
}

/// A value read as a non-negative integer.
pub open spec fn integer_value(v: SpecBencode, key: Seq<char>) -> Result<u64, SpecMetainfoError> {
    match v {
        SpecBencode::Int(n) => if n >= 0 {
            Ok(n as u64)
        } else {
            Err(SpecMetainfoError::IntegerOverflow)
        },
        _ => Err(SpecMetainfoError::WrongValueType(key)),
    }
}

/// A value read as UTF-8 text.
pub open spec fn string_value(v: SpecBencode, key: Seq<char>) -> Result<Seq<char>, SpecMetainfoError> {
    match v {
        SpecBencode::Str(b) => if valid_utf8(b) {
            Ok(decode_utf8(b))
        } else {
            Err(SpecMetainfoError::InvalidUtf8String)
        },
        _ => Err(SpecMetainfoError::WrongValueType(key)),
    }
}

/// Items read as UTF-8 text, in order; the first that is not fails the
/// whole list.
pub open spec fn string_items(items: Seq<SpecBencode>, key: Seq<char>) -> Result<Seq<Seq<char>>, SpecMetainfoError>
    decreases items.len(),
{
    if items.len() == 0 {
        Ok(Seq::empty())
    } else {
        match string_items(items.drop_last(), key) {
            Err(e) => Err(e),
            Ok(r) => match string_value(items.last(), key) {
                Err(e) => Err(e),
                Ok(s) => Ok(r.push(s)),
            },
        }
    }
}

/// The texts of a sequence of strings.
pub open spec fn strings_view(v: Seq<String>) -> Seq<Seq<char>> {
    Seq::new(v.len(), |j: int| v[j]@)
}

/// A required key, read with `read`.
pub open spec fn required<T>(v: Option<SpecBencode>, key: Seq<char>, read: spec_fn(SpecBencode) -> Result<T, SpecMetainfoError>) -> Result<T, SpecMetainfoError> {
    match v {
        None => Err(SpecMetainfoError::MissingKey(key)),
        Some(x) => read(x),
    }
}

/// An optional key, read with `read`.
pub open spec fn optional<T>(v: Option<SpecBencode>, read: spec_fn(SpecBencode) -> Result<T, SpecMetainfoError>) -> Result<Option<T>, SpecMetainfoError> {
    match v {
        None => Ok(None),
        Some(x) => match read(x) {
            Ok(t) => Ok(Some(t)),
            Err(e) => Err(e),
        },
    }
}

/// The error for a value of the wrong type under `key`.
fn wrong_type(key: &str) -> (e: MetainfoError)
    ensures
        e@ == SpecMetainfoError::WrongValueType(key@),
{
    MetainfoError::WrongValueType(String::from_str(key))
}

/// The error for a missing `key`.
fn missing(key: &str) -> (e: MetainfoError)
    ensures
        e@ == SpecMetainfoError::MissingKey(key@),
{
    MetainfoError::MissingKey(String::from_str(key))
}

fn read_integer(v: &Bencode, key: &str) -> (r: Result<u64, MetainfoError>)
    ensures
        match integer_value(v@, key@) {
            Ok(n) => r is Ok && r->Ok_0 == n,
            Err(e) => r is Err && r->Err_0@ == e,
        },
{
    match v {
        Bencode::Integer(n) => if *n >= 0 {
            Ok(*n as u64)
        } else {
            Err(MetainfoError::IntegerOverflow)
        },
        _ => Err(wrong_type(key)),
    }
}

fn read_string(v: &Bencode, key: &str) -> (r: Result<String, MetainfoError>)
    ensures
        match string_value(v@, key@) {
            Ok(s) => r is Ok && r->Ok_0@ == s,
            Err(e) => r is Err && r->Err_0@ == e,
        },
{
    match v {
        Bencode::String(bytes) => match string_from_utf8(bytes.clone()) {
            Some(s) => Ok(s),
            None => Err(MetainfoError::InvalidUtf8String),
        },
        _ => Err(wrong_type(key)),
    }
}

/// An optional non-negative integer.
pub fn extract_optional_integer_from_dict(dict: &Dictionary, key: &str) -> (r: Result<
    Option<u64>,
    MetainfoError,
>)
    ensures
        match optional(lookup(dict@, key.spec_bytes()), |x: SpecBencode| integer_value(x, key@)) {
            Ok(v) => r is Ok && r->Ok_0 == v,
            Err(e) => r is Err && r->Err_0@ == e,
        },
{
    match dict.get(key.as_bytes()) {
        Some(v) => match read_integer(v, key) {
            Ok(n) => Ok(Some(n)),
            Err(e) => Err(e),
        },
        None => Ok(None),
    }
}

/// A required non-negative integer.
pub fn extract_integer_from_dict(dict: &Dictionary, key: &str) -> (r: Result<u64, MetainfoError>)
    ensures
        match required(lookup(dict@, key.spec_bytes()), key@, |x: SpecBencode| integer_value(x, key@)) {
            Ok(n) => r is Ok && r->Ok_0 == n,
            Err(e) => r is Err && r->Err_0@ == e,
        },
{
    match dict.get(key.as_bytes()) {
        Some(v) => read_integer(v, key),
        None => Err(missing(key)),
    }
}

/// An optional UTF-8 string.
pub fn extract_optional_string_from_dict(dict: &Dictionary, key: &str) -> (r: Result<
    Option<String>,
    MetainfoError,
>)
    ensures
        match optional(lookup(dict@, key.spec_bytes()), |x: SpecBencode| string_value(x, key@)) {
            Ok(Some(s)) => r is Ok && r->Ok_0 is Some && r->Ok_0->0@ == s,
            Ok(None) => r is Ok && r->Ok_0 is None,
            Err(e) => r is Err && r->Err_0@ == e,
        },
{
    match dict.get(key.as_bytes()) {
        Some(v) => match read_string(v, key) {
            Ok(s) => Ok(Some(s)),
            Err(e) => Err(e),
        },
        None => Ok(None),
    }
}

/// A required UTF-8 string.
pub fn extract_string_from_dict(dict: &Dictionary, key: &str) -> (r: Result<String, MetainfoError>)
    ensures
        match required(lookup(dict@, key.spec_bytes()), key@, |x: SpecBencode| string_value(x, key@)) {
            Ok(s) => r is Ok && r->Ok_0@ == s,
            Err(e) => r is Err && r->Err_0@ == e,
        },
{
    match dict.get(key.as_bytes()) {
        Some(v) => read_string(v, key),
        None => Err(missing(key)),
    }
}

/// A required byte string.
pub fn extract_bytes_from_dict(dict: &Dictionary, key: &str) -> (r: Result<Vec<u8>, MetainfoError>)
    ensures
        match lookup(dict@, key.spec_bytes()) {
            None => r is Err && r->Err_0@ == SpecMetainfoError::MissingKey(key@),
            Some(SpecBencode::Str(b)) => r is Ok && r->Ok_0@ == b,
            Some(_) => r is Err && r->Err_0@ == SpecMetainfoError::WrongValueType(key@),
        },
{
    match dict.get(key.as_bytes()) {
        Some(Bencode::String(bytes)) => Ok(bytes.clone()),
        Some(_) => Err(wrong_type(key)),
        None => Err(missing(key)),
    }
}

/// A required value of any type, copied out.
pub fn extract_bencode_from_dict(dict: &Dictionary, key: &str) -> (r: Result<Bencode, MetainfoError>)
    ensures
        match lookup(dict@, key.spec_bytes()) {
            None => r is Err && r->Err_0@ == SpecMetainfoError::MissingKey(key@),
            Some(v) => r is Ok && r->Ok_0@ == v,
        },
{
    match dict.get(key.as_bytes()) {
        Some(v) => Ok(v.duplicate()),
        None => Err(missing(key)),
    }
}

/// A required list, its items copied out.
pub fn extract_bencode_list_from_dict(dict: &Dictionary, key: &str) -> (r: Result<
    Vec<Bencode>,
    MetainfoError,
>)
    ensures
        match lookup(dict@, key.spec_bytes()) {
            None => r is Err && r->Err_0@ == SpecMetainfoError::MissingKey(key@),
            Some(SpecBencode::List(items)) => r is Ok && values_view(r->Ok_0@) == items,
            Some(_) => r is Err && r->Err_0@ == SpecMetainfoError::WrongValueType(key@),
        },
{
    match dict.get(key.as_bytes()) {
        Some(Bencode::List(list)) => Ok(Bencode::duplicate_all(list)),
        Some(_) => Err(wrong_type(key)),
        None => Err(missing(key)),
    }
}

/// A required list of UTF-8 strings.
pub fn extract_string_list_from_dict(dict: &Dictionary, key: &str) -> (r: Result<
    Vec<String>,
    MetainfoError,
>)
    ensures
        match lookup(dict@, key.spec_bytes()) {
            None => r is Err && r->Err_0@ == SpecMetainfoError::MissingKey(key@),
            Some(SpecBencode::List(items)) => match string_items(items, key@) {
                Ok(ss) => r is Ok && strings_view(r->Ok_0@) == ss,
                Err(e) => r is Err && r->Err_0@ == e,
            },
            Some(_) => r is Err && r->Err_0@ == SpecMetainfoError::WrongValueType(key@),
        },
{
    match dict.get(key.as_bytes()) {
        Some(Bencode::List(list)) => {
            let ghost items = values_view(list@);
            proof {
                lemma_values_view(list@);
            }
            let mut out: Vec<String> = Vec::new();
            let mut i: usize = 0;
            assert(items.take(0) =~= Seq::<SpecBencode>::empty());
            assert(strings_view(out@) =~= Seq::<Seq<char>>::empty());
            while i < list.len()
                invariant
                    i <= list@.len(),
                    items == values_view(list@),
                    lookup(dict@, key.spec_bytes()) == Some(SpecBencode::List(items)),
                    items.len() == list@.len(),
                    forall|j: int| 0 <= j < items.len() ==> #[trigger] items[j] == list@[j].view(),
                    string_items(items.take(i as int), key@) == Ok::<Seq<Seq<char>>, SpecMetainfoError>(
                        strings_view(out@),
                    ),
                decreases list@.len() - i,
            {
                assert(items.take(i + 1).drop_last() =~= items.take(i as int));
                assert(items.take(i + 1).last() == list@[i as int]@);
                match read_string(&list[i], key) {
                    Ok(s) => {
                        let ghost before = out@;
                        out.push(s);
                        assert(strings_view(out@) =~= strings_view(before).push(s@));
                    },
                    Err(e) => {
                        proof {
                            assert(string_items(items.take(i + 1), key@) == Err::<Seq<Seq<char>>, SpecMetainfoError>(e@));
                            lemma_string_items_prefix_err(items, key@, i as int + 1);
                        }
                        return Err(e);
                    },
                }
                i = i + 1;
            }
            assert(items.take(i as int) =~= items);
            Ok(out)
        },
        Some(_) => Err(wrong_type(key)),
        None => Err(missing(key)),
    }
}

/// `converter` turned the value `v` into `out`, on some copy of it.
pub open spec fn converts<F: Fn(Bencode) -> Result<T, MetainfoError>, T>(
    converter: F,
    v: SpecBencode,
    out: Result<T, MetainfoError>,
) -> bool {
    exists|x: Bencode| x@ == v && #[trigger] converter.ensures((x,), out)
}

/// `converter` turns some copy of `v` into a value.
pub open spec fn converts_ok<F: Fn(Bencode) -> Result<T, MetainfoError>, T>(converter: F, v: SpecBencode) -> bool {
    exists|t: T| converts(converter, v, Ok(t))
}

/// What converting `items` one by one gave: every item converted, in
/// order, or the first failure.
pub open spec fn converted_all<F: Fn(Bencode) -> Result<T, MetainfoError>, T>(
    converter: F,
    items: Seq<SpecBencode>,
    r: Result<Vec<T>, MetainfoError>,
) -> bool {
    match r {
        Ok(v) => v@.len() == items.len() && forall|i: int|
            0 <= i < items.len() ==> converts(converter, #[trigger] items[i], Ok(v@[i])),
        Err(e) => exists|k: int|
            0 <= k < items.len() && converts(converter, #[trigger] items[k], Err(e)) && forall|j: int|
                0 <= j < k ==> #[trigger] converts_ok(converter, items[j]),
    }
}

/// Convert each value with `converter`, stopping at the first failure.
fn convert_all<F: Fn(Bencode) -> Result<T, MetainfoError>, T>(list: &Vec<Bencode>, converter: &F) -> (r: Result<
    Vec<T>,
    MetainfoError,
>)
    requires
        forall|x: Bencode| converter.requires((x,)),
    ensures
        converted_all(*converter, values_view(list@), r),
{
    let ghost items = values_view(list@);
    proof {
        lemma_values_view(list@);
    }
    let mut out: Vec<T> = Vec::new();
    let mut i: usize = 0;
    while i < list.len()
        invariant
            i <= list@.len(),
            items == values_view(list@),
            items.len() == list@.len(),
            forall|x: Bencode| converter.requires((x,)),
            forall|j: int| 0 <= j < items.len() ==> #[trigger] items[j] == list@[j].view(),
            out@.len() == i,
            forall|j: int| 0 <= j < i ==> converts(*converter, #[trigger] items[j], Ok(out@[j])),
        decreases list@.len() - i,
    {
        let x = list[i].duplicate();
        assert(x@ == items[i as int]);
        let ghost xg = x;
        let res = converter(x);
        assert(converter.ensures((xg,), res));
        match res {
            Ok(t) => {
                let ghost before = out@;
                out.push(t);
                assert forall|j: int| 0 <= j < i + 1 implies converts(*converter, #[trigger] items[j], Ok(out@[j])) by {
                    if j < i {
                        assert(out@[j] == before[j]);
                    }
                }
            },
            Err(e) => {
                proof {
                    assert(converts(*converter, items[i as int], Err(e)));
                    assert forall|j: int| 0 <= j < i implies #[trigger] converts_ok(*converter, items[j]) by {
                        assert(converts(*converter, items[j], Ok(out@[j])));
                    }
                    assert(converted_all(*converter, items, Err::<Vec<T>, MetainfoError>(e)));
                }
                return Err(e);
            },
        }
        i = i + 1;
    }
    Ok(out)
}

/// An optional list, each item converted by `converter`.
pub fn extract_optional_list_from_dict<F: Fn(Bencode) -> Result<T, MetainfoError>, T>(
    dict: &Dictionary,
    key: &str,
    converter: F,
) -> (r: Result<Option<Vec<T>>, MetainfoError>)
    requires
        forall|x: Bencode| converter.requires((x,)),
    ensures
        match lookup(dict@, key.spec_bytes()) {
            None => r is Ok && r->Ok_0 is None,
            Some(SpecBencode::List(items)) => match r {
                Ok(Some(v)) => converted_all(converter, items, Ok(v)),
                Ok(None) => false,
                Err(e) => converted_all(converter, items, Err(e)),
            },
            Some(_) => r is Err && r->Err_0@ == SpecMetainfoError::WrongValueType(key@),
        },
{
    match dict.get(key.as_bytes()) {
        Some(Bencode::List(list)) => match convert_all(list, &converter) {
            Ok(v) => Ok(Some(v)),
            Err(e) => Err(e),
        },
        Some(_) => Err(wrong_type(key)),
        None => Ok(None),
    }
}

/// A required list, each item converted by `converter`.
pub fn extract_list_from_dict<F: Fn(Bencode) -> Result<T, MetainfoError>, T>(
    dict: &Dictionary,
    key: &str,
    converter: F,
) -> (r: Result<Vec<T>, MetainfoError>)
    requires
        forall|x: Bencode| converter.requires((x,)),
    ensures
        match lookup(dict@, key.spec_bytes()) {
            None => r is Err && r->Err_0@ == SpecMetainfoError::MissingKey(key@),
            Some(SpecBencode::List(items)) => converted_all(converter, items, r),
            Some(_) => r is Err && r->Err_0@ == SpecMetainfoError::WrongValueType(key@),
        },
{
    match extract_bencode_list_from_dict(dict, key) {
        Ok(list) => convert_all(&list, &converter),
        Err(e) => Err(e),
    }
}

/// A list that fails on a prefix fails with the same error.
proof fn lemma_string_items_prefix_err(items: Seq<SpecBencode>, key: Seq<char>, k: int)
    requires
        0 <= k <= items.len(),
        string_items(items.take(k), key) is Err,
    ensures
        string_items(items, key) == string_items(items.take(k), key),
    decreases items.len() - k,
{
    if k < items.len() {
        let t = items.take(k + 1);
        assert(t.drop_last() =~= items.take(k));
        lemma_string_items_prefix_err(items, key, k + 1);
    } else {
        assert(items.take(k) =~= items);
    }
}

} // verus!
