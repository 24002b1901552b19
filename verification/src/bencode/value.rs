//! The [`Bencode`] value type and its accessors.
//!
//! A decoded bencode document is a tree of these. Values borrow from the
//! bytes they were decoded from, so nothing is copied while parsing.

use vstd::prelude::*;

use super::laws::well_formed;
use super::spec::{
    dict_get, dict_insert, keys_sorted, lemma_dict_insert_sorted, lemma_lex_trichotomy, lex_lt,
    SpecBencode,
};

verus! {

/// A decoded bencode value.
///
/// [`Bencode::String`] holds arbitrary bytes, not text.
#[derive(Debug)]
pub enum Bencode<'a> {
    /// A byte string, written as its length, a `:`, then the bytes.
    String(&'a [u8]),
    /// A signed integer, written as `i`, digits, then `e`.
    Integer(i64),
    /// A dictionary with byte-string keys, written as `d`, pairs, then `e`.
    Dictionary(Dictionary<'a>),
    /// A list of values, written as `l`, items, then `e`.
    List(Vec<Bencode<'a>>),
}

/// A dictionary with byte-string keys, kept in strictly increasing byte
/// order, as bencode requires.
#[derive(Debug)]
pub struct Dictionary<'a> {
    entries: Vec<(&'a [u8], Bencode<'a>)>,
}

/// A value was not the type the caller asked for.
#[derive(Debug)]
pub enum BencodeError {
    /// An accessor was called on the wrong variant.
    WrongType { want: &'static str, got: &'static str },
}

/// The models of a sequence of values.
pub open spec fn list_view<'a>(s: Seq<Bencode<'a>>) -> Seq<SpecBencode>
    decreases s,
{
    if s.len() == 0 {
        Seq::empty()
    } else {
        list_view(s.drop_last()).push(s.last().view())
    }
}

/// The models of a sequence of dictionary entries.
pub open spec fn entries_view<'a>(s: Seq<(&'a [u8], Bencode<'a>)>) -> Seq<(Seq<u8>, SpecBencode)>
    decreases s,
{
    if s.len() == 0 {
        Seq::empty()
    } else {
        entries_view(s.drop_last()).push((s.last().0@, s.last().1.view()))
    }
}

/// The model of a sequence of values is taken element by element.
pub proof fn lemma_list_view<'a>(s: Seq<Bencode<'a>>)
    ensures
        list_view(s).len() == s.len(),
        forall|i: int| 0 <= i < s.len() ==> #[trigger] list_view(s)[i] == s[i].view(),
    decreases s.len(),
{
    if s.len() > 0 {
        lemma_list_view(s.drop_last());
    }
}

/// The model of a sequence of entries is taken entry by entry.
pub proof fn lemma_entries_view<'a>(s: Seq<(&'a [u8], Bencode<'a>)>)
    ensures
        entries_view(s).len() == s.len(),
        forall|i: int|
            0 <= i < s.len() ==> #[trigger] entries_view(s)[i] == (s[i].0@, s[i].1.view()),
    decreases s.len(),
{
    if s.len() > 0 {
        lemma_entries_view(s.drop_last());
    }
}

impl<'a> Bencode<'a> {
    /// The mathematical model of this value.
    pub open spec fn view(&self) -> SpecBencode
        decreases self,
    {
        match self {
            Bencode::String(b) => SpecBencode::Str(b@),
            Bencode::Integer(n) => SpecBencode::Int(*n as int),
            Bencode::Dictionary(d) => SpecBencode::Dict(d.view()),
            Bencode::List(items) => SpecBencode::List(list_view(items@)),
        }
    }

    /// The name of this value's type, for error messages.
    pub fn kind(&self) -> (k: &'static str)
        ensures
            k@ == kind_name(self@),
    {
        proof {
            reveal_strlit("string");
            reveal_strlit("integer");
            reveal_strlit("dictionary");
            reveal_strlit("list");
        }
        match self {
            Bencode::String(_) => "string",
            Bencode::Integer(_) => "integer",
            Bencode::Dictionary(_) => "dictionary",
            Bencode::List(_) => "list",
        }
    }

    /// Read this value as an integer.
    pub fn as_i64(&self) -> (r: Result<i64, BencodeError>)
        ensures
            match self@ {
                SpecBencode::Int(n) => r == Ok::<i64, BencodeError>(n as i64),
                _ => is_wrong_type(r, "integer"@, self@),
            },
    {
        match self {
            Bencode::Integer(number) => Ok(*number),
            _ => Err(self.wrong_type("integer")),
        }
    }

    /// Read this value as a byte string.
    pub fn as_bytes(&self) -> (r: Result<&[u8], BencodeError>)
        ensures
            match self@ {
                SpecBencode::Str(b) => r is Ok && r->Ok_0@ == b,
                _ => is_wrong_type(r, "string"@, self@),
            },
    {
        match self {
            Bencode::String(bytes) => Ok(bytes),
            _ => Err(self.wrong_type("string")),
        }
    }

    /// Read this value as a dictionary.
    pub fn as_dictionary(&self) -> (r: Result<&Dictionary<'a>, BencodeError>)
        ensures
            match self@ {
                SpecBencode::Dict(entries) => r is Ok && r->Ok_0@ == entries,
                _ => is_wrong_type(r, "dictionary"@, self@),
            },
    {
        match self {
            Bencode::Dictionary(entries) => Ok(entries),
            _ => Err(self.wrong_type("dictionary")),
        }
    }

    /// Read this value as a list.
    pub fn as_list(&self) -> (r: Result<&[Bencode<'a>], BencodeError>)
        ensures
            match self@ {
                SpecBencode::List(items) => r is Ok && list_view(r->Ok_0@) == items,
                _ => is_wrong_type(r, "list"@, self@),
            },
    {
        match self {
            Bencode::List(items) => Ok(items.as_slice()),
            _ => Err(self.wrong_type("list")),
        }
    }

    /// Build a type-mismatch error naming what was wanted and what is here.
    fn wrong_type(&self, want: &'static str) -> (e: BencodeError)
        ensures
            e matches BencodeError::WrongType { want: w, got } && w == want && got@ == kind_name(self@),
    {
        BencodeError::WrongType { want, got: self.kind() }
    }

    /// Every value that code can build is well formed: its integers fit in
    /// 64 signed bits, and every dictionary in it, at any depth, keeps its
    /// keys in strictly increasing byte order. This walks the value only to
    /// bring each dictionary's invariant into the proof; it changes nothing.
    pub fn check_well_formed(&self)
        ensures
            well_formed(self@),
        decreases self,
    {
        match self {
            Bencode::String(_) => {},
            Bencode::Integer(_) => {},
            Bencode::Dictionary(d) => {
                proof {
                    use_type_invariant(d);
                    lemma_entries_view(d.entries@);
                }
                let mut i: usize = 0;
                while i < d.entries.len()
                    invariant
                        i <= d.entries@.len(),
                        *self == Bencode::Dictionary(*d),
                        forall|j: int| 0 <= j < i ==> well_formed(#[trigger] d.entries@[j].1@),
                    decreases d.entries@.len() - i,
                {
                    assert(decreases_to!(*self => (*self)->Dictionary_0));
                    assert(decreases_to!(*d => d.entries));
                    assert(decreases_to!(d.entries => d.entries@));
                    assert(decreases_to!(d.entries@ => d.entries@[i as int]));
                    assert(decreases_to!(d.entries@[i as int] => d.entries@[i as int].1));
                    d.entries[i].1.check_well_formed();
                    i = i + 1;
                }
                assert forall|j: int| 0 <= j < d@.len() implies well_formed(#[trigger] d@[j].1) by {
                    assert(d@[j].1 == d.entries@[j].1@);
                }
            },
            Bencode::List(items) => {
                proof {
                    lemma_list_view(items@);
                }
                let mut i: usize = 0;
                while i < items.len()
                    invariant
                        i <= items@.len(),
                        *self == Bencode::List(*items),
                        forall|j: int| 0 <= j < i ==> well_formed(#[trigger] items@[j]@),
                    decreases items@.len() - i,
                {
                    assert(decreases_to!(*self => (*self)->List_0));
                    assert(decreases_to!(*items => items@));
                    assert(decreases_to!(items@ => items@[i as int]));
                    items[i].check_well_formed();
                    i = i + 1;
                }
                assert forall|j: int| 0 <= j < list_view(items@).len() implies well_formed(
                    #[trigger] list_view(items@)[j],
                ) by {
                    assert(list_view(items@)[j] == items@[j]@);
                }
            },
        }
    }
}

/// The type name of a value, as error messages spell it.
pub open spec fn kind_name(v: SpecBencode) -> Seq<char> {
    match v {
        SpecBencode::Str(_) => "string"@,
        SpecBencode::Int(_) => "integer"@,
        SpecBencode::Dict(_) => "dictionary"@,
        SpecBencode::List(_) => "list"@,
    }
}

/// `r` is the type-mismatch error for wanting `want` of the value `v`.
pub open spec fn is_wrong_type<T>(r: Result<T, BencodeError>, want: Seq<char>, v: SpecBencode) -> bool {
    r matches Err(BencodeError::WrongType { want: w, got }) && w@ == want && got@ == kind_name(v)
}

impl<'a> Dictionary<'a> {
    /// The entries in key order, as byte strings and value models.
    pub closed spec fn view(&self) -> Seq<(Seq<u8>, SpecBencode)>
        decreases self,
    {
        entries_view(self.entries@)
    }

    #[verifier::type_invariant]
    closed spec fn inv(self) -> bool {
        keys_sorted(self.view())
    }

    /// An empty dictionary.
    pub fn new() -> (d: Self)
        ensures
            d@ == Seq::<(Seq<u8>, SpecBencode)>::empty(),
    {
        Dictionary { entries: Vec::new() }
    }

    /// Number of entries.
    pub fn len(&self) -> (n: usize)
        ensures
            n == self@.len(),
    {
        proof {
            lemma_entries_view(self.entries@);
        }
        self.entries.len()
    }

    /// Whether there are no entries.
    pub fn is_empty(&self) -> (b: bool)
        ensures
            b == (self@.len() == 0),
    {
        proof {
            lemma_entries_view(self.entries@);
        }
        self.entries.len() == 0
    }

    /// The key of the `i`-th entry in key order.
    pub fn key_at(&self, i: usize) -> (k: &'a [u8])
        requires
            i < self@.len(),
        ensures
            k@ == self@[i as int].0,
    {
        proof {
            lemma_entries_view(self.entries@);
        }
        self.entries[i].0
    }

    /// The value of the `i`-th entry in key order.
    pub fn value_at(&self, i: usize) -> (v: &Bencode<'a>)
        requires
            i < self@.len(),
        ensures
            v@ == self@[i as int].1,
    {
        proof {
            lemma_entries_view(self.entries@);
        }
        &self.entries[i].1
    }

    /// The keys are in strictly increasing byte order.
    pub fn check_sorted(&self)
        ensures
            keys_sorted(self@),
    {
        proof {
            use_type_invariant(self);
        }
    }

    /// Insert a value, replacing any value already stored under an equal key.
    pub fn insert(&mut self, key: &'a [u8], value: Bencode<'a>)
        ensures
            final(self)@ == dict_insert(old(self)@, key@, value@),
    {
        proof {
            use_type_invariant(&*self);
            lemma_entries_view(self.entries@);
        }
        let ghost s = self@;
        let mut entries: Vec<(&'a [u8], Bencode<'a>)> = Vec::new();
        std::mem::swap(&mut entries, &mut self.entries);
        let mut i = entries.len();
        assert(s.take(i as int) =~= s);
        assert(s.skip(i as int) =~= Seq::<(Seq<u8>, SpecBencode)>::empty());
        assert(dict_insert(s, key@, value@) + s.skip(i as int) =~= dict_insert(s, key@, value@));
        while i > 0 && bytes_lt(key, entries[i - 1].0)
            invariant
                i <= entries@.len(),
                s == entries_view(entries@),
                s.len() == entries@.len(),
                forall|j: int| 0 <= j < s.len() ==> #[trigger] s[j] == (entries@[j].0@, entries@[j].1.view()),
                dict_insert(s, key@, value@) == dict_insert(s.take(i as int), key@, value@) + s.skip(i as int),
            decreases i,
        {
            proof {
                let t = s.take(i as int);
                lemma_lex_trichotomy(key@, s[i - 1].0);
                assert(t.last() == s[i - 1]);
                assert(t.drop_last() =~= s.take(i - 1));
                assert(s.skip(i - 1) =~= seq![s[i - 1]] + s.skip(i as int));
                assert(dict_insert(t, key@, value@) == dict_insert(s.take(i - 1), key@, value@).push(s[i - 1]));
                assert(dict_insert(s.take(i - 1), key@, value@).push(s[i - 1]) + s.skip(i as int)
                    =~= dict_insert(s.take(i - 1), key@, value@) + s.skip(i - 1));
            }
            i = i - 1;
        }
        if i > 0 && bytes_eq(entries[i - 1].0, key) {
            let _ = entries.remove(i - 1);
            entries.insert(i - 1, (key, value));
            proof {
                let t = s.take(i as int);
                assert(t.last() == s[i - 1]);
                assert(t.drop_last() =~= s.take(i - 1));
                lemma_entries_view(entries@);
                assert(entries_view(entries@) =~= dict_insert(s, key@, value@));
            }
        } else {
            entries.insert(i, (key, value));
            proof {
                let t = s.take(i as int);
                if i > 0 {
                    lemma_lex_trichotomy(key@, s[i - 1].0);
                    assert(t.last() == s[i - 1]);
                    assert(dict_insert(t, key@, value@) == t.push((key@, value@)));
                }
                lemma_entries_view(entries@);
                assert(entries_view(entries@) =~= dict_insert(s, key@, value@));
            }
        }
        proof {
            lemma_dict_insert_sorted(s, key@, value@);
        }
        self.entries = entries;
    }

    /// Look up the value stored under `key`.
    pub fn get(&self, key: &[u8]) -> (r: Option<&Bencode<'a>>)
        ensures
            match dict_get(self@, key@) {
                Some(v) => r is Some && r->0@ == v,
                None => r is None,
            },
    {
        proof {
            lemma_entries_view(self.entries@);
        }
        let ghost s = self@;
        let mut i: usize = 0;
        assert(s.skip(0) =~= s);
        while i < self.entries.len()
            invariant
                i <= self.entries@.len(),
                s == entries_view(self.entries@),
                s.len() == self.entries@.len(),
                forall|j: int| 0 <= j < s.len() ==> #[trigger] s[j] == (self.entries@[j].0@, self.entries@[j].1.view()),
                dict_get(s, key@) == dict_get(s.skip(i as int), key@),
            decreases self.entries@.len() - i,
        {
            assert(s.skip(i as int)[0] == s[i as int]);
            if bytes_eq(self.entries[i].0, key) {
                return Some(&self.entries[i].1);
            }
            assert(s.skip(i as int).drop_first() =~= s.skip(i + 1));
            i = i + 1;
        }
        None
    }
}

/// Whether two byte strings are equal.
pub fn bytes_eq(a: &[u8], b: &[u8]) -> (r: bool)
    ensures
        r == (a@ == b@),
{
    if a.len() != b.len() {
        return false;
    }
    let mut i: usize = 0;
    while i < a.len()
        invariant
            a@.len() == b@.len(),
            i <= a@.len(),
            forall|j: int| 0 <= j < i ==> a@[j] == b@[j],
        decreases a@.len() - i,
    {
        if a[i] != b[i] {
            return false;
        }
        i = i + 1;
    }
    assert(a@ =~= b@);
    true
}

/// Whether `a` sorts strictly before `b` in byte order.
pub fn bytes_lt(a: &[u8], b: &[u8]) -> (r: bool)
    ensures
        r == lex_lt(a@, b@),
{
    let mut i: usize = 0;
    assert(a@.skip(0) =~= a@);
    assert(b@.skip(0) =~= b@);
    while i < a.len() && i < b.len()
        invariant
            i <= a@.len(),
            i <= b@.len(),
            lex_lt(a@, b@) == lex_lt(a@.skip(i as int), b@.skip(i as int)),
        decreases a@.len() - i,
    {
        assert(a@.skip(i as int)[0] == a@[i as int]);
        assert(b@.skip(i as int)[0] == b@[i as int]);
        if a[i] < b[i] {
            return true;
        }
        if a[i] > b[i] {
            return false;
        }
        assert(a@.skip(i as int).drop_first() =~= a@.skip(i + 1));
        assert(b@.skip(i as int).drop_first() =~= b@.skip(i + 1));
        i = i + 1;
    }
    i == a.len() && i < b.len()
}

} // verus!
