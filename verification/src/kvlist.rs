//! Association lists keyed by strings, with their abstraction to `Map`.
//!
//! Several structures of this crate keep `(String, value)` pairs in a `Vec`
//! and are specified against the `Map` obtained by inserting the pairs left
//! to right (so a later pair would win; well-formed lists have unique keys).
use crate::strutil::str_eq;
use vstd::prelude::*;

verus! {

/// The map abstraction of an association list: pairs inserted left to right.
pub open spec fn kv_map<V, W>(entries: Seq<(String, V)>, f: spec_fn(V) -> W) -> Map<Seq<char>, W>
    decreases entries.len(),
{
    if entries.len() == 0 {
        Map::empty()
    } else {
        kv_map(entries.drop_last(), f).insert(entries.last().0@, f(entries.last().1))
    }
}

/// No two pairs share a key.
pub open spec fn kv_unique<V>(entries: Seq<(String, V)>) -> bool {
    forall|i: int, j: int| 0 <= i < j < entries.len() ==> entries[i].0@ != entries[j].0@
}

pub proof fn lemma_kv_contains<V, W>(entries: Seq<(String, V)>, f: spec_fn(V) -> W, k: Seq<char>)
    ensures
        kv_map(entries, f).contains_key(k) <==> exists|i: int|
            0 <= i < entries.len() && entries[i].0@ == k,
    decreases entries.len(),
{
    if entries.len() > 0 {
        lemma_kv_contains(entries.drop_last(), f, k);
        if entries.last().0@ != k && kv_map(entries, f).contains_key(k) {
            let i = choose|i: int| 0 <= i < entries.len() - 1 && entries.drop_last()[i].0@ == k;
            assert(entries[i].0@ == k);
        }
        if exists|i: int| 0 <= i < entries.len() && entries[i].0@ == k {
            let i = choose|i: int| 0 <= i < entries.len() && entries[i].0@ == k;
            if i < entries.len() - 1 {
                assert(entries.drop_last()[i].0@ == k);
            }
        }
    }
}

pub proof fn lemma_kv_index<V, W>(entries: Seq<(String, V)>, f: spec_fn(V) -> W, i: int)
    requires
        kv_unique(entries),
        0 <= i < entries.len(),
    ensures
        kv_map(entries, f).contains_key(entries[i].0@),
        kv_map(entries, f)[entries[i].0@] == f(entries[i].1),
    decreases entries.len(),
{
    lemma_kv_contains(entries, f, entries[i].0@);
    if i < entries.len() - 1 {
        assert(entries.drop_last()[i] == entries[i]);
        lemma_kv_index(entries.drop_last(), f, i);
        assert(entries.last().0@ != entries[i].0@);
    }
}

/// The whole map is determined by lookups: two well-formed lists with the
/// same key set and equal values have equal maps.
pub proof fn lemma_kv_dom<V, W>(entries: Seq<(String, V)>, f: spec_fn(V) -> W)
    ensures
        kv_map(entries, f).dom().finite(),
        kv_map(entries, f).dom().len() <= entries.len(),
    decreases entries.len(),
{
    if entries.len() == 0 {
        assert(kv_map(entries, f).dom() =~= Set::<Seq<char>>::empty());
    } else {
        lemma_kv_dom(entries.drop_last(), f);
    }
}

/// Updating the value at one index updates the map at that key.
pub proof fn lemma_kv_update<V, W>(
    entries: Seq<(String, V)>,
    f: spec_fn(V) -> W,
    i: int,
    k: String,
    v: V,
)
    requires
        kv_unique(entries),
        0 <= i < entries.len(),
        k@ == entries[i].0@,
    ensures
        kv_map(entries.update(i, (k, v)), f) == kv_map(entries, f).insert(entries[i].0@, f(v)),
        kv_unique(entries.update(i, (k, v))),
    decreases entries.len(),
{
    let updated = entries.update(i, (k, v));
    assert forall|a: int, b: int| 0 <= a < b < updated.len() implies updated[a].0@
        != updated[b].0@ by {
        assert(entries[a].0@ != entries[b].0@);
    }
    if i == entries.len() - 1 {
        assert(updated.drop_last() =~= entries.drop_last());
        assert(kv_map(updated, f) == kv_map(entries.drop_last(), f).insert(k@, f(v)));
        assert(kv_map(entries, f).insert(entries[i].0@, f(v)) == kv_map(
            entries.drop_last(),
            f,
        ).insert(entries[i].0@, f(entries[i].1)).insert(entries[i].0@, f(v)));
        assert(kv_map(entries.drop_last(), f).insert(k@, f(v)) =~= kv_map(
            entries.drop_last(),
            f,
        ).insert(entries[i].0@, f(entries[i].1)).insert(entries[i].0@, f(v)));
    } else {
        assert(updated.drop_last() =~= entries.drop_last().update(i, (k, v)));
        lemma_kv_update(entries.drop_last(), f, i, k, v);
        assert(entries.drop_last()[i] == entries[i]);
        let last = entries.last();
        assert(updated.last() == last);
        assert(kv_map(updated, f) == kv_map(entries.drop_last(), f).insert(
            entries[i].0@,
            f(v),
        ).insert(last.0@, f(last.1)));
        assert(last.0@ != entries[i].0@);
        assert(kv_map(entries.drop_last(), f).insert(entries[i].0@, f(v)).insert(last.0@, f(last.1))
            =~= kv_map(entries.drop_last(), f).insert(last.0@, f(last.1)).insert(
            entries[i].0@,
            f(v),
        ));
    }
}

/// Appending a pair with a fresh key inserts it into the map.
pub proof fn lemma_kv_push<V, W>(entries: Seq<(String, V)>, f: spec_fn(V) -> W, k: String, v: V)
    requires
        kv_unique(entries),
        forall|i: int| 0 <= i < entries.len() ==> entries[i].0@ != k@,
    ensures
        kv_map(entries.push((k, v)), f) == kv_map(entries, f).insert(k@, f(v)),
        kv_unique(entries.push((k, v))),
{
    assert(entries.push((k, v)).drop_last() =~= entries);
}

/// Whether the list's keys are pairwise distinct.
pub fn kv_unique_check<V>(entries: &Vec<(String, V)>) -> (r: bool)
    ensures
        r == kv_unique(entries@),
{
    let n = entries.len();
    for i in 0..n
        invariant
            n == entries@.len(),
            forall|p: int, q: int| 0 <= p < q < entries@.len() && p < i ==> entries@[p].0@
                != entries@[q].0@,
    {
        let mut j = i + 1;
        while j < n
            invariant
                i < j <= n,
                n == entries@.len(),
                forall|q: int| i < q < j ==> entries@[i as int].0@ != entries@[q].0@,
            decreases n - j,
        {
            if str_eq(entries[i].0.as_str(), entries[j].0.as_str()) {
                return false;
            }
            j = j + 1;
        }
    }
    true
}

/// The index of the pair holding `key`, when the list has one.
pub fn kv_find<V>(entries: &Vec<(String, V)>, key: &str) -> (r: Option<usize>)
    ensures
        match r {
            Some(i) => i < entries@.len() && entries@[i as int].0@ == key@,
            None => forall|i: int| 0 <= i < entries@.len() ==> entries@[i].0@ != key@,
        },
{
    let n = entries.len();
    for i in 0..n
        invariant
            n == entries@.len(),
            forall|j: int| 0 <= j < i ==> entries@[j].0@ != key@,
    {
        if str_eq(entries[i].0.as_str(), key) {
            return Some(i);
        }
    }
    None
}

} // verus!
