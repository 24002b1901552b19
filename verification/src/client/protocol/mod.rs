//! The client's own bencode value: an owned tree, decoded from and encoded
//! to bytes.

use vstd::prelude::*;
use vstd::slice::slice_to_vec;

use crate::bencode::spec::{
    dict_get, dict_insert, entries_height, height, items_height, keys_sorted, lemma_dict_insert_sorted,
    lemma_entries_height, lemma_items_height, lemma_lex_trichotomy, SpecBencode,
};
use crate::bencode::value::{bytes_eq, bytes_lt, lemma_list_view, Bencode as Borrowed};

pub mod decoder;
pub mod encoder;

verus! {

/// A bencode value that owns its bytes.
#[derive(Debug)]
pub enum Bencode {
    Integer(i64),
    String(Vec<u8>),
    List(Vec<Bencode>),
    /// Entries keyed by byte strings, in strictly increasing key order.
    Dictionary(Dictionary),
}

/// A dictionary with byte-string keys, kept in strictly increasing byte
/// order, so that its encoding lists the keys sorted.
#[derive(Debug)]
pub struct Dictionary {
    entries: Vec<(Vec<u8>, Bencode)>,
}

/// The models of a sequence of values.
pub open spec fn values_view(s: Seq<Bencode>) -> Seq<SpecBencode>
    decreases s,
{
    if s.len() == 0 {
        Seq::empty()
    } else {
        values_view(s.drop_last()).push(s.last().view())
    }
}

/// The models of a sequence of dictionary entries.
pub open spec fn pairs_view(s: Seq<(Vec<u8>, Bencode)>) -> Seq<(Seq<u8>, SpecBencode)>
    decreases s,
{
    if s.len() == 0 {
        Seq::empty()
    } else {
        pairs_view(s.drop_last()).push((s.last().0@, s.last().1.view()))
    }
}

/// The model of a sequence of values is taken element by element.
pub proof fn lemma_values_view(s: Seq<Bencode>)
    ensures
        values_view(s).len() == s.len(),
        forall|i: int| 0 <= i < s.len() ==> #[trigger] values_view(s)[i] == s[i].view(),
    decreases s.len(),
{
    if s.len() > 0 {
        lemma_values_view(s.drop_last());
    }
}

/// The model of a sequence of entries is taken entry by entry.
pub proof fn lemma_pairs_view(s: Seq<(Vec<u8>, Bencode)>)
    ensures
        pairs_view(s).len() == s.len(),
        forall|i: int| 0 <= i < s.len() ==> #[trigger] pairs_view(s)[i] == (s[i].0@, s[i].1.view()),
    decreases s.len(),
{
    if s.len() > 0 {
        lemma_pairs_view(s.drop_last());
    }
}

impl Bencode {
    /// The mathematical model of this value.
    pub open spec fn view(&self) -> SpecBencode
        decreases self,
    {
        match self {
            Bencode::Integer(n) => SpecBencode::Int(*n as int),
            Bencode::String(b) => SpecBencode::Str(b@),
            Bencode::List(items) => SpecBencode::List(values_view(items@)),
            Bencode::Dictionary(d) => SpecBencode::Dict(d.view()),
        }
    }

    /// An owned copy of a value decoded in place.
    pub fn from_borrowed(value: &Borrowed) -> (r: Bencode)
        ensures
            r@ == value@,
        decreases height(value@),
    {
        match value {
            Borrowed::Integer(n) => Bencode::Integer(*n),
            Borrowed::String(b) => Bencode::String(slice_to_vec(b)),
            Borrowed::List(items) => {
                let ghost vs = value@->List_0;
                proof {
                    lemma_list_view(items@);
                    lemma_items_height(vs);
                }
                let mut out: Vec<Bencode> = Vec::new();
                let mut i: usize = 0;
                while i < items.len()
                    invariant
                        i <= items@.len(),
                        vs.len() == items@.len(),
                        vs == value@->List_0,
                        value@ is List,
                        forall|j: int| 0 <= j < vs.len() ==> #[trigger] vs[j] == items@[j].view(),
                        forall|j: int| 0 <= j < vs.len() ==> height(#[trigger] vs[j]) < height(value@),
                        values_view(out@) == vs.take(i as int),
                    decreases items@.len() - i,
                {
                    assert(height(items@[i as int]@) < height(value@)) by {
                        assert(vs[i as int] == items@[i as int]@);
                    }
                    let item = Bencode::from_borrowed(&items[i]);
                    let ghost before = out@;
                    out.push(item);
                    assert(out@.drop_last() =~= before);
                    assert(vs.take(i + 1) =~= vs.take(i as int).push(vs[i as int]));
                    i = i + 1;
                }
                assert(vs.take(i as int) =~= vs);
                Bencode::List(out)
            },
            Borrowed::Dictionary(d) => {
                let ghost es = d@;
                proof {
                    lemma_entries_height(es);
                }
                d.check_sorted();
                let n = d.len();
                let mut out: Vec<(Vec<u8>, Bencode)> = Vec::new();
                let mut i: usize = 0;
                while i < n
                    invariant
                        n == es.len(),
                        es == d@,
                        keys_sorted(es),
                        value@ == SpecBencode::Dict(es),
                        i <= n,
                        forall|j: int| 0 <= j < es.len() ==> height(#[trigger] es[j].1) < height(value@),
                        pairs_view(out@) == es.take(i as int),
                    decreases n - i,
                {
                    let key = d.key_at(i);
                    let v = d.value_at(i);
                    let item = Bencode::from_borrowed(v);
                    let ghost before = out@;
                    out.push((slice_to_vec(key), item));
                    assert(out@.drop_last() =~= before);
                    assert(es.take(i + 1) =~= es.take(i as int).push(es[i as int]));
                    i = i + 1;
                }
                assert(es.take(i as int) =~= es);
                Bencode::Dictionary(Dictionary::from_sorted(out))
            },
        }
    }
}

impl Bencode {
    /// A copy of this value.
    pub fn duplicate(&self) -> (r: Bencode)
        ensures
            r@ == self@,
        decreases height(self@), 0nat,
    {
        match self {
            Bencode::Integer(n) => Bencode::Integer(*n),
            Bencode::String(b) => Bencode::String(b.clone()),
            Bencode::List(items) => {
                proof {
                    lemma_values_view(items@);
                }
                Bencode::List(Bencode::duplicate_all(items))
            },
            Bencode::Dictionary(d) => {
                let ghost es = d@;
                proof {
                    lemma_entries_height(es);
                }
                d.check_sorted();
                let n = d.len();
                let mut out: Vec<(Vec<u8>, Bencode)> = Vec::new();
                let mut i: usize = 0;
                while i < n
                    invariant
                        n == es.len(),
                        es == d@,
                        keys_sorted(es),
                        i <= n,
                        self@ == SpecBencode::Dict(es),
                        forall|j: int| 0 <= j < es.len() ==> height(#[trigger] es[j].1) < height(self@),
                        pairs_view(out@) == es.take(i as int),
                    decreases n - i,
                {
                    let key = d.key_at(i);
                    let v = d.value_at(i).duplicate();
                    let ghost before = out@;
                    out.push((slice_to_vec(key), v));
                    assert(out@.drop_last() =~= before);
                    assert(es.take(i + 1) =~= es.take(i as int).push(es[i as int]));
                    i = i + 1;
                }
                assert(es.take(i as int) =~= es);
                Bencode::Dictionary(Dictionary::from_sorted(out))
            },
        }
    }

    /// Copies of a sequence of values.
    pub fn duplicate_all(items: &Vec<Bencode>) -> (r: Vec<Bencode>)
        ensures
            values_view(r@) == values_view(items@),
        decreases items_height(values_view(items@)), 1nat,
    {
        let ghost vs = values_view(items@);
        proof {
            lemma_values_view(items@);
            lemma_items_height(vs);
        }
        let mut out: Vec<Bencode> = Vec::new();
        let mut i: usize = 0;
        while i < items.len()
            invariant
                i <= items@.len(),
                vs == values_view(items@),
                vs.len() == items@.len(),
                forall|j: int| 0 <= j < vs.len() ==> #[trigger] vs[j] == items@[j].view(),
                forall|j: int| 0 <= j < vs.len() ==> height(#[trigger] vs[j]) <= items_height(vs),
                values_view(out@) == vs.take(i as int),
            decreases items@.len() - i,
        {
            assert(vs[i as int] == items@[i as int]@);
            let v = items[i].duplicate();
            let ghost before = out@;
            out.push(v);
            assert(out@.drop_last() =~= before);
            assert(vs.take(i + 1) =~= vs.take(i as int).push(vs[i as int]));
            i = i + 1;
        }
        assert(vs.take(i as int) =~= vs);
        out
    }
}

impl Dictionary {
    /// The entries in key order, as byte strings and value models.
    pub closed spec fn view(&self) -> Seq<(Seq<u8>, SpecBencode)>
        decreases self,
    {
        pairs_view(self.entries@)
    }

    #[verifier::type_invariant]
    closed spec fn inv(self) -> bool {
        keys_sorted(self.view())
    }

    /// An empty dictionary.
    pub fn new() -> (d: Self)
        ensures
            d@ == Seq::<(Seq<u8>, SpecBencode)>::empty(),
    {
        Dictionary { entries: Vec::new() }
    }

    /// A dictionary of entries already in strictly increasing key order.
    pub fn from_sorted(entries: Vec<(Vec<u8>, Bencode)>) -> (d: Self)
        requires
            keys_sorted(pairs_view(entries@)),
        ensures
            d@ == pairs_view(entries@),
    {
        Dictionary { entries }
    }

    /// Number of entries.
    pub fn len(&self) -> (n: usize)
        ensures
            n == self@.len(),
    {
        proof {
            lemma_pairs_view(self.entries@);
        }
        self.entries.len()
    }

    /// Whether there are no entries.
    pub fn is_empty(&self) -> (b: bool)
        ensures
            b == (self@.len() == 0),
    {
        proof {
            lemma_pairs_view(self.entries@);
        }
        self.entries.len() == 0
    }

    /// The key of the `i`-th entry in key order.
    pub fn key_at(&self, i: usize) -> (k: &[u8])
        requires
            i < self@.len(),
        ensures
            k@ == self@[i as int].0,
    {
        proof {
            lemma_pairs_view(self.entries@);
        }
        self.entries[i].0.as_slice()
    }

    /// The value of the `i`-th entry in key order.
    pub fn value_at(&self, i: usize) -> (v: &Bencode)
        requires
            i < self@.len(),
        ensures
            v@ == self@[i as int].1,
    {
        proof {
            lemma_pairs_view(self.entries@);
        }
        &self.entries[i].1
    }

    /// The keys are in strictly increasing byte order.
    pub fn check_sorted(&self)
        ensures
            keys_sorted(self@),
    {
        proof {
            use_type_invariant(self);
        }
    }

    /// Insert a value, replacing any value already stored under an equal key.
    pub fn insert(&mut self, key: Vec<u8>, value: Bencode)
        ensures
            final(self)@ == dict_insert(old(self)@, key@, value@),
    {
        proof {
            use_type_invariant(&*self);
            lemma_pairs_view(self.entries@);
        }
        let ghost s = self@;
        let ghost k = key@;
        let ghost v = value@;
        let mut entries: Vec<(Vec<u8>, Bencode)> = Vec::new();
        std::mem::swap(&mut entries, &mut self.entries);
        let mut i = entries.len();
        assert(s.take(i as int) =~= s);
        assert(s.skip(i as int) =~= Seq::<(Seq<u8>, SpecBencode)>::empty());
        assert(dict_insert(s, k, v) + s.skip(i as int) =~= dict_insert(s, k, v));
        while i > 0 && bytes_lt(key.as_slice(), entries[i - 1].0.as_slice())
            invariant
                i <= entries@.len(),
                s == pairs_view(entries@),
                s.len() == entries@.len(),
                k == key@,
                v == value@,
                forall|j: int| 0 <= j < s.len() ==> #[trigger] s[j] == (entries@[j].0@, entries@[j].1.view()),
                dict_insert(s, k, v) == dict_insert(s.take(i as int), k, v) + s.skip(i as int),
            decreases i,
        {
            proof {
                let t = s.take(i as int);
                lemma_lex_trichotomy(k, s[i - 1].0);
                assert(t.last() == s[i - 1]);
                assert(t.drop_last() =~= s.take(i - 1));
                assert(s.skip(i - 1) =~= seq![s[i - 1]] + s.skip(i as int));
                assert(dict_insert(t, k, v) == dict_insert(s.take(i - 1), k, v).push(s[i - 1]));
                assert(dict_insert(s.take(i - 1), k, v).push(s[i - 1]) + s.skip(i as int)
                    =~= dict_insert(s.take(i - 1), k, v) + s.skip(i - 1));
            }
            i = i - 1;
        }
        if i > 0 && bytes_eq(entries[i - 1].0.as_slice(), key.as_slice()) {
            let _ = entries.remove(i - 1);
            entries.insert(i - 1, (key, value));
            proof {
                let t = s.take(i as int);
                assert(t.last() == s[i - 1]);
                assert(t.drop_last() =~= s.take(i - 1));
                lemma_pairs_view(entries@);
                assert(pairs_view(entries@) =~= dict_insert(s, k, v));
            }
        } else {
            entries.insert(i, (key, value));
            proof {
                let t = s.take(i as int);
                if i > 0 {
                    lemma_lex_trichotomy(k, s[i - 1].0);
                    assert(t.last() == s[i - 1]);
                    assert(dict_insert(t, k, v) == t.push((k, v)));
                }
                lemma_pairs_view(entries@);
                assert(pairs_view(entries@) =~= dict_insert(s, k, v));
            }
        }
        proof {
            lemma_dict_insert_sorted(s, k, v);
        }
        self.entries = entries;
    }

    /// Look up the value stored under `key`.
    pub fn get(&self, key: &[u8]) -> (r: Option<&Bencode>)
        ensures
            match dict_get(self@, key@) {
                Some(v) => r is Some && r->0@ == v,
                None => r is None,
            },
    {
        proof {
            lemma_pairs_view(self.entries@);
        }
        let ghost s = self@;
        let mut i: usize = 0;
        assert(s.skip(0) =~= s);
        while i < self.entries.len()
            invariant
                i <= self.entries@.len(),
                s == pairs_view(self.entries@),
                s.len() == self.entries@.len(),
                forall|j: int| 0 <= j < s.len() ==> #[trigger] s[j] == (self.entries@[j].0@, self.entries@[j].1.view()),
                dict_get(s, key@) == dict_get(s.skip(i as int), key@),
            decreases self.entries@.len() - i,
        {
            assert(s.skip(i as int)[0] == s[i as int]);
            if bytes_eq(self.entries[i].0.as_slice(), key) {
                return Some(&self.entries[i].1);
            }
            assert(s.skip(i as int).drop_first() =~= s.skip(i + 1));
            i = i + 1;
        }
        None
    }
}

} // verus!
