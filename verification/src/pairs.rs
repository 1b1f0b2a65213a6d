//! Key/value lists in insertion order, where a later insert of a key
//! replaces the earlier value in place: the form fields, query parameters,
//! headers and markup attributes that the parsers collect.
use vstd::prelude::*;

use crate::text::{chars_of, seq_equal};

verus! {

pub open spec fn pair_view(p: (String, String)) -> (Seq<char>, Seq<char>) {
    (p.0@, p.1@)
}

pub open spec fn pairs_view(v: Seq<(String, String)>) -> Seq<(Seq<char>, Seq<char>)> {
    v.map_values(|p: (String, String)| pair_view(p))
}

/// The first index at or after `from` whose key is `k`.
pub open spec fn key_index_from(m: Seq<(Seq<char>, Seq<char>)>, k: Seq<char>, from: int) -> Option<
    int,
>
    decreases m.len() - from,
{
    if from < 0 || from >= m.len() {
        None
    } else if m[from].0 == k {
        Some(from)
    } else {
        key_index_from(m, k, from + 1)
    }
}

/// The first index whose key is `k`.
pub open spec fn key_index(m: Seq<(Seq<char>, Seq<char>)>, k: Seq<char>) -> Option<int> {
    key_index_from(m, k, 0)
}

/// The value kept for `k`.
pub open spec fn assoc_get(m: Seq<(Seq<char>, Seq<char>)>, k: Seq<char>) -> Option<Seq<char>> {
    match key_index(m, k) {
        Some(i) => Some(m[i].1),
        None => None,
    }
}

/// Inserting `k => v`: the value of an existing key is replaced in place,
/// a new key goes to the end.
pub open spec fn assoc_insert(m: Seq<(Seq<char>, Seq<char>)>, k: Seq<char>, v: Seq<char>) -> Seq<
    (Seq<char>, Seq<char>),
> {
    match key_index(m, k) {
        Some(i) => m.update(i, (k, v)),
        None => m.push((k, v)),
    }
}

/// The list that inserting `entries` in order builds.
pub open spec fn assoc_from(entries: Seq<(Seq<char>, Seq<char>)>) -> Seq<(Seq<char>, Seq<char>)>
    decreases entries.len(),
{
    if entries.len() == 0 {
        seq![]
    } else {
        assoc_insert(assoc_from(entries.drop_last()), entries.last().0, entries.last().1)
    }
}

pub proof fn lemma_assoc_from_push(e: Seq<(Seq<char>, Seq<char>)>, x: (Seq<char>, Seq<char>))
    ensures
        assoc_from(e.push(x)) == assoc_insert(assoc_from(e), x.0, x.1),
{
    assert(e.push(x).drop_last() =~= e);
}

/// No key occurs twice.
pub open spec fn keys_unique(m: Seq<(Seq<char>, Seq<char>)>) -> bool {
    forall|i: int, j: int| 0 <= i < j < m.len() ==> m[i].0 != m[j].0
}

pub proof fn lemma_key_index_from(m: Seq<(Seq<char>, Seq<char>)>, k: Seq<char>, from: int)
    requires
        0 <= from,
    ensures
        key_index_from(m, k, from) matches Some(i) ==> from <= i < m.len() && m[i].0 == k
            && forall|j: int| from <= j < i ==> m[j].0 != k,
        key_index_from(m, k, from) is None ==> forall|j: int| from <= j < m.len() ==> m[j].0 != k,
    decreases m.len() - from,
{
    if from < m.len() && m[from].0 != k {
        lemma_key_index_from(m, k, from + 1);
    }
}

pub proof fn lemma_key_index(m: Seq<(Seq<char>, Seq<char>)>, k: Seq<char>)
    ensures
        key_index(m, k) matches Some(i) ==> 0 <= i < m.len() && m[i].0 == k && forall|j: int|
            0 <= j < i ==> m[j].0 != k,
        key_index(m, k) is None ==> forall|j: int| 0 <= j < m.len() ==> m[j].0 != k,
{
    lemma_key_index_from(m, k, 0);
}

/// A value inserted for a key is what is read back for it, every other key
/// reads as before, and no key comes to occur twice.
pub proof fn law_insert_then_get(
    m: Seq<(Seq<char>, Seq<char>)>,
    k: Seq<char>,
    v: Seq<char>,
    other: Seq<char>,
)
    ensures
        assoc_get(assoc_insert(m, k, v), k) == Some(v),
        other != k ==> assoc_get(assoc_insert(m, k, v), other) == assoc_get(m, other),
        keys_unique(m) ==> keys_unique(assoc_insert(m, k, v)),
{
    let r = assoc_insert(m, k, v);
    lemma_key_index(m, k);
    lemma_key_index(r, k);
    lemma_key_index(m, other);
    lemma_key_index(r, other);
    match key_index(m, k) {
        Some(i) => {
            assert(r[i].0 == k);
            assert forall|j: int| 0 <= j < m.len() && j != i implies #[trigger] r[j] == m[j] by {}
            if key_index(r, k) != Some(i) {
                assert(false);
            }
            if other != k {
                match key_index(m, other) {
                    Some(a) => {
                        assert(r[a] == m[a]);
                        if key_index(r, other) != Some(a) {
                            assert(false);
                        }
                    },
                    None => {},
                }
            }
        },
        None => {
            assert(r[m.len() as int].0 == k);
            assert forall|j: int| 0 <= j < m.len() implies #[trigger] r[j] == m[j] by {}
            if key_index(r, k) != Some(m.len() as int) {
                assert(false);
            }
            if other != k {
                match key_index(m, other) {
                    Some(a) => {
                        assert(r[a] == m[a]);
                        if key_index(r, other) != Some(a) {
                            assert(false);
                        }
                    },
                    None => {},
                }
            }
        },
    }
}

/// The value given last for `k` among `entries`.
pub open spec fn last_value(entries: Seq<(Seq<char>, Seq<char>)>, k: Seq<char>) -> Option<Seq<char>>
    decreases entries.len(),
{
    if entries.len() == 0 {
        None
    } else if entries.last().0 == k {
        Some(entries.last().1)
    } else {
        last_value(entries.drop_last(), k)
    }
}

/// A list built by inserting entries one after another, as a map is
/// collected, holds each key once, with the value given last for it.
pub proof fn law_assoc_from_is_a_map(entries: Seq<(Seq<char>, Seq<char>)>, k: Seq<char>)
    ensures
        keys_unique(assoc_from(entries)),
        assoc_get(assoc_from(entries), k) == last_value(entries, k),
    decreases entries.len(),
{
    if entries.len() > 0 {
        let p = entries.drop_last();
        let (lk, lv) = entries.last();
        law_assoc_from_is_a_map(p, k);
        law_insert_then_get(assoc_from(p), lk, lv, k);
    }
}

/// The index of key `k` in `m`.
pub fn find_key(m: &Vec<(String, String)>, k: &[char]) -> (r: Option<usize>)
    ensures
        r matches Some(i) ==> key_index(pairs_view(m@), k@) == Some(i as int),
        r is None ==> key_index(pairs_view(m@), k@) is None,
{
    let mut i: usize = 0;
    while i < m.len()
        invariant
            i <= m@.len(),
            key_index(pairs_view(m@), k@) == key_index_from(pairs_view(m@), k@, i as int),
        decreases m@.len() - i,
    {
        let key = chars_of(m[i].0.as_str());
        if seq_equal(key.as_slice(), k) {
            return Some(i);
        }
        i = i + 1;
    }
    None
}

/// Inserts `k => v`, replacing the value of an existing key in place.
pub fn upsert(m: &mut Vec<(String, String)>, k: String, v: String)
    ensures
        pairs_view(final(m)@) == assoc_insert(pairs_view(old(m)@), k@, v@),
{
    let key = chars_of(k.as_str());
    proof {
        lemma_key_index(pairs_view(m@), k@);
    }
    match find_key(m, key.as_slice()) {
        Some(i) => {
            m.set(i, (k, v));
            assert(pairs_view(m@) =~= pairs_view(old(m)@).update(i as int, (k@, v@)));
        },
        None => {
            m.push((k, v));
            assert(pairs_view(m@) =~= pairs_view(old(m)@).push((k@, v@)));
        },
    }
}

/// The value kept for `k`.
pub fn lookup(m: &Vec<(String, String)>, k: &str) -> (r: Option<String>)
    ensures
        match assoc_get(pairs_view(m@), k@) {
            Some(v) => r matches Some(s) && s@ == v,
            None => r is None,
        },
{
    let key = chars_of(k);
    proof {
        lemma_key_index(pairs_view(m@), k@);
    }
    match find_key(m, key.as_slice()) {
        Some(i) => Some(m[i].1.clone()),
        None => None,
    }
}

} // verus!
