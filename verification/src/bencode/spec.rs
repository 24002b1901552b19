//! The mathematical model of bencode: values, the byte order of keys, and
//! the dictionary operations the exec types are proved against.

use vstd::prelude::*;

verus! {

/// The mathematical model of a bencode value.
///
/// A dictionary is the sequence of its entries in key order.
pub enum SpecBencode {
    Str(Seq<u8>),
    Int(int),
    Dict(Seq<(Seq<u8>, SpecBencode)>),
    List(Seq<SpecBencode>),
}

/// Byte-wise lexicographic order on byte strings: `a` sorts strictly before `b`.
pub open spec fn lex_lt(a: Seq<u8>, b: Seq<u8>) -> bool
    decreases a.len(),
{
    if a.len() == 0 {
        b.len() > 0
    } else if b.len() == 0 {
        false
    } else if a[0] < b[0] {
        true
    } else if a[0] > b[0] {
        false
    } else {
        lex_lt(a.drop_first(), b.drop_first())
    }
}

/// Keys of an entry sequence are strictly increasing.
pub open spec fn keys_sorted<V>(s: Seq<(Seq<u8>, V)>) -> bool {
    forall|i: int, j: int| 0 <= i < j < s.len() ==> lex_lt(#[trigger] s[i].0, #[trigger] s[j].0)
}

/// Insert `(k, v)` into a key-sorted entry sequence, replacing the value of
/// an equal key.
pub open spec fn dict_insert<V>(s: Seq<(Seq<u8>, V)>, k: Seq<u8>, v: V) -> Seq<(Seq<u8>, V)>
    decreases s.len(),
{
    if s.len() == 0 {
        seq![(k, v)]
    } else if lex_lt(s.last().0, k) {
        s.push((k, v))
    } else if s.last().0 == k {
        s.drop_last().push((k, v))
    } else {
        dict_insert(s.drop_last(), k, v).push(s.last())
    }
}

/// The value stored under `k`, if any.
pub open spec fn dict_get<V>(s: Seq<(Seq<u8>, V)>, k: Seq<u8>) -> Option<V>
    decreases s.len(),
{
    if s.len() == 0 {
        None
    } else if s[0].0 == k {
        Some(s[0].1)
    } else {
        dict_get(s.drop_first(), k)
    }
}

/// Exactly one of `a < b`, `a == b`, `b < a` holds.
pub proof fn lemma_lex_trichotomy(a: Seq<u8>, b: Seq<u8>)
    ensures
        lex_lt(a, b) || a == b || lex_lt(b, a),
        !(lex_lt(a, b) && lex_lt(b, a)),
        !lex_lt(a, a),
    decreases a.len(),
{
    if a.len() > 0 && b.len() > 0 && a[0] == b[0] {
        lemma_lex_trichotomy(a.drop_first(), b.drop_first());
        if a.drop_first() == b.drop_first() {
            assert(a =~= seq![a[0]] + a.drop_first());
            assert(b =~= seq![b[0]] + b.drop_first());
        }
    }
    if a.len() > 0 {
        lemma_lex_irreflexive(a);
    }
}

proof fn lemma_lex_irreflexive(a: Seq<u8>)
    ensures
        !lex_lt(a, a),
    decreases a.len(),
{
    if a.len() > 0 {
        lemma_lex_irreflexive(a.drop_first());
    }
}

/// The byte order is transitive.
pub proof fn lemma_lex_transitive(a: Seq<u8>, b: Seq<u8>, c: Seq<u8>)
    requires
        lex_lt(a, b),
        lex_lt(b, c),
    ensures
        lex_lt(a, c),
    decreases a.len(),
{
    if a.len() > 0 && b.len() > 0 && c.len() > 0 && a[0] == b[0] && b[0] == c[0] {
        lemma_lex_transitive(a.drop_first(), b.drop_first(), c.drop_first());
    }
}

/// Inserting into a key-sorted sequence keeps it key-sorted, and the result
/// holds exactly the old keys plus `k`.
pub proof fn lemma_dict_insert_sorted<V>(s: Seq<(Seq<u8>, V)>, k: Seq<u8>, v: V)
    requires
        keys_sorted(s),
    ensures
        keys_sorted(dict_insert(s, k, v)),
        dict_insert(s, k, v).len() > 0,
        forall|i: int|
            0 <= i < dict_insert(s, k, v).len() ==> (#[trigger] dict_insert(s, k, v)[i].0 == k
                || exists|j: int| 0 <= j < s.len() && s[j].0 == dict_insert(s, k, v)[i].0),
        dict_insert(s, k, v).last().0 == k || dict_insert(s, k, v).last() == s.last(),
    decreases s.len(),
{
    if s.len() == 0 {
    } else if lex_lt(s.last().0, k) {
        let r = s.push((k, v));
        assert forall|i: int, j: int| 0 <= i < j < r.len() implies lex_lt(#[trigger] r[i].0, #[trigger] r[j].0) by {
            if j == r.len() - 1 {
                if i < s.len() - 1 {
                    lemma_lex_transitive(s[i].0, s.last().0, k);
                }
            }
        }
        assert forall|i: int| 0 <= i < r.len() implies (#[trigger] r[i].0 == k
            || exists|j: int| 0 <= j < s.len() && s[j].0 == r[i].0) by {
            if i < s.len() {
                assert(s[i].0 == r[i].0);
            }
        }
    } else if s.last().0 == k {
        let r = s.drop_last().push((k, v));
        assert forall|i: int, j: int| 0 <= i < j < r.len() implies lex_lt(#[trigger] r[i].0, #[trigger] r[j].0) by {
            assert(s[i].0 == r[i].0);
            assert(s[j].0 == r[j].0);
        }
        assert forall|i: int| 0 <= i < r.len() implies (#[trigger] r[i].0 == k
            || exists|j: int| 0 <= j < s.len() && s[j].0 == r[i].0) by {
            if i < s.len() - 1 {
                assert(s[i].0 == r[i].0);
            }
        }
    } else {
        let t = s.drop_last();
        assert(keys_sorted(t)) by {
            assert forall|i: int, j: int| 0 <= i < j < t.len() implies lex_lt(#[trigger] t[i].0, #[trigger] t[j].0) by {
                assert(s[i].0 == t[i].0);
                assert(s[j].0 == t[j].0);
            }
        }
        lemma_dict_insert_sorted(t, k, v);
        lemma_lex_trichotomy(s.last().0, k);
        let it = dict_insert(t, k, v);
        let r = it.push(s.last());
        assert forall|i: int, j: int| 0 <= i < j < r.len() implies lex_lt(#[trigger] r[i].0, #[trigger] r[j].0) by {
            if j == r.len() - 1 {
                assert(r[i].0 == it[i].0);
                if it[i].0 == k {
                } else {
                    let jj = choose|jj: int| 0 <= jj < t.len() && t[jj].0 == it[i].0;
                    assert(s[jj].0 == t[jj].0);
                }
            } else {
                assert(r[i].0 == it[i].0);
                assert(r[j].0 == it[j].0);
            }
        }
        assert forall|i: int| 0 <= i < r.len() implies (#[trigger] r[i].0 == k
            || exists|j: int| 0 <= j < s.len() && s[j].0 == r[i].0) by {
            if i < it.len() {
                assert(r[i].0 == it[i].0);
                if it[i].0 != k {
                    let jj = choose|jj: int| 0 <= jj < t.len() && t[jj].0 == it[i].0;
                    assert(s[jj].0 == t[jj].0);
                }
            } else {
                assert(s[s.len() - 1].0 == r[i].0);
            }
        }
    }
}

/// Inserting a key greater than every present key appends it.
pub proof fn lemma_dict_insert_greatest<V>(s: Seq<(Seq<u8>, V)>, k: Seq<u8>, v: V)
    requires
        s.len() == 0 || lex_lt(s.last().0, k),
    ensures
        dict_insert(s, k, v) == s.push((k, v)),
{
}

} // verus!

verus! {

/// How deeply containers nest inside a value: zero for strings and
/// integers, one more than the deepest element for lists and dictionaries.
pub open spec fn height(v: SpecBencode) -> nat
    decreases v,
{
    match v {
        SpecBencode::Str(_) => 0,
        SpecBencode::Int(_) => 0,
        SpecBencode::List(items) => 1 + items_height(items),
        SpecBencode::Dict(entries) => 1 + entries_height(entries),
    }
}

/// The greatest height among a sequence of values (zero when empty).
pub open spec fn items_height(s: Seq<SpecBencode>) -> nat
    decreases s,
{
    if s.len() == 0 {
        0
    } else {
        let a = items_height(s.drop_last());
        let b = height(s.last());
        if a >= b { a } else { b }
    }
}

/// The greatest height among the values of a sequence of entries.
pub open spec fn entries_height(s: Seq<(Seq<u8>, SpecBencode)>) -> nat
    decreases s,
{
    if s.len() == 0 {
        0
    } else {
        let a = entries_height(s.drop_last());
        let b = height(s.last().1);
        if a >= b { a } else { b }
    }
}

/// Every element is no higher than the sequence's greatest height.
pub proof fn lemma_items_height(s: Seq<SpecBencode>)
    ensures
        forall|i: int| 0 <= i < s.len() ==> height(#[trigger] s[i]) <= items_height(s),
    decreases s.len(),
{
    if s.len() > 0 {
        lemma_items_height(s.drop_last());
        assert forall|i: int| 0 <= i < s.len() implies height(#[trigger] s[i]) <= items_height(s) by {
            if i < s.len() - 1 {
                assert(s[i] == s.drop_last()[i]);
            }
        }
    }
}

/// Every value is no higher than the entries' greatest height.
pub proof fn lemma_entries_height(s: Seq<(Seq<u8>, SpecBencode)>)
    ensures
        forall|i: int| 0 <= i < s.len() ==> height(#[trigger] s[i].1) <= entries_height(s),
    decreases s.len(),
{
    if s.len() > 0 {
        lemma_entries_height(s.drop_last());
        assert forall|i: int| 0 <= i < s.len() implies height(#[trigger] s[i].1) <= entries_height(s) by {
            if i < s.len() - 1 {
                assert(s[i] == s.drop_last()[i]);
            }
        }
    }
}

} // verus!
