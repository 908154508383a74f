//! A mathematical view of an association sequence as a map.
//!
//! The registry and the sessions keep their records in vectors; their
//! contracts speak of the map each vector denotes. `keyed_map` folds a
//! sequence of records into a `Map` keyed by a caller-chosen key function,
//! later entries winning; `unique_keys` is the invariant under which the
//! sequence and the map carry the same information.

use vstd::prelude::*;

verus! {

/// The map denoted by an association sequence: each record is entered
/// under its key, later records overwriting earlier ones.
pub open spec fn keyed_map<K, V>(s: Seq<V>, key: spec_fn(V) -> K) -> Map<K, V>
    decreases s.len(),
{
    if s.len() == 0 {
        Map::empty()
    } else {
        keyed_map(s.drop_last(), key).insert(key(s.last()), s.last())
    }
}

/// No two records of the sequence carry the same key.
pub open spec fn unique_keys<K, V>(s: Seq<V>, key: spec_fn(V) -> K) -> bool {
    forall|i: int, j: int| 0 <= i < j < s.len() ==> key(s[i]) != key(s[j])
}

/// A key is in the map exactly when some record of the sequence carries it.
pub proof fn lemma_keyed_map_contains<K, V>(s: Seq<V>, key: spec_fn(V) -> K, k: K)
    ensures
        keyed_map(s, key).contains_key(k) <==> exists|i: int|
            0 <= i < s.len() && #[trigger] key(s[i]) == k,
    decreases s.len(),
{
    if s.len() > 0 {
        lemma_keyed_map_contains(s.drop_last(), key, k);
        if keyed_map(s, key).contains_key(k) {
            if key(s.last()) == k {
                assert(key(s[s.len() - 1]) == k);
            } else {
                let i = choose|i: int| 0 <= i < s.drop_last().len() && #[trigger] key(
                    s.drop_last()[i],
                ) == k;
                assert(key(s[i]) == k);
            }
        }
        if exists|i: int| 0 <= i < s.len() && #[trigger] key(s[i]) == k {
            let i = choose|i: int| 0 <= i < s.len() && #[trigger] key(s[i]) == k;
            if i < s.len() - 1 {
                assert(key(s.drop_last()[i]) == k);
            }
        }
    }
}

/// Under unique keys, the record at each index is the map's entry for its key.
pub proof fn lemma_keyed_map_index<K, V>(s: Seq<V>, key: spec_fn(V) -> K, i: int)
    requires
        unique_keys(s, key),
        0 <= i < s.len(),
    ensures
        keyed_map(s, key).contains_key(key(s[i])),
        keyed_map(s, key)[key(s[i])] == s[i],
    decreases s.len(),
{
    lemma_keyed_map_contains(s, key, key(s[i]));
    if i < s.len() - 1 {
        assert(s.drop_last()[i] == s[i]);
        lemma_keyed_map_index(s.drop_last(), key, i);
        assert(key(s[i]) != key(s[s.len() - 1]));
    }
}

/// Under unique keys, the map has exactly one entry per record.
pub proof fn lemma_keyed_map_len<K, V>(s: Seq<V>, key: spec_fn(V) -> K)
    requires
        unique_keys(s, key),
    ensures
        keyed_map(s, key).len() == s.len(),
        keyed_map(s, key).dom().finite(),
    decreases s.len(),
{
    broadcast use vstd::set::axiom_set_insert_len;

    if s.len() > 0 {
        lemma_keyed_map_len(s.drop_last(), key);
        lemma_keyed_map_contains(s.drop_last(), key, key(s.last()));
        assert(forall|i: int|
            0 <= i < s.drop_last().len() ==> #[trigger] key(s.drop_last()[i]) == key(s[i])
                && key(s[i]) != key(s[s.len() - 1]));
    }
}

/// Removing the record at an index removes exactly its key from the map.
pub proof fn lemma_keyed_map_remove<K, V>(s: Seq<V>, key: spec_fn(V) -> K, i: int)
    requires
        unique_keys(s, key),
        0 <= i < s.len(),
    ensures
        keyed_map(s.remove(i), key) == keyed_map(s, key).remove(key(s[i])),
        unique_keys(s.remove(i), key),
    decreases s.len(),
{
    s.remove_ensures(i);
    assert(unique_keys(s.remove(i), key)) by {
        assert forall|p: int, q: int| 0 <= p < q < s.remove(i).len() implies key(s.remove(i)[p])
            != key(s.remove(i)[q]) by {
            let p0: int = if p < i { p } else { p + 1 };
            let q0: int = if q < i { q } else { q + 1 };
            assert(s.remove(i)[p] == s[p0] && s.remove(i)[q] == s[q0]);
        }
    }
    if i == s.len() - 1 {
        assert(s.remove(i) =~= s.drop_last());
        lemma_keyed_map_contains(s.drop_last(), key, key(s[i]));
        assert(forall|j: int|
            0 <= j < s.drop_last().len() ==> #[trigger] key(s.drop_last()[j]) != key(s[i]));
        lemma_keyed_map_not_contains_remove(s.drop_last(), key, key(s[i]));
    } else {
        lemma_keyed_map_remove(s.drop_last(), key, i);
        assert(s.remove(i).drop_last() =~= s.drop_last().remove(i));
        assert(s.remove(i).last() == s.last());
        assert(key(s.last()) != key(s[i]));
        assert(keyed_map(s.remove(i), key) == keyed_map(s.drop_last(), key).remove(
            key(s[i]),
        ).insert(key(s.last()), s.last()));
        assert(keyed_map(s.drop_last(), key).remove(key(s[i])).insert(key(s.last()), s.last())
            =~= keyed_map(s.drop_last(), key).insert(key(s.last()), s.last()).remove(key(s[i])));
    }
}

/// Removing a key that the map does not hold leaves it unchanged.
proof fn lemma_keyed_map_not_contains_remove<K, V>(s: Seq<V>, key: spec_fn(V) -> K, k: K)
    requires
        !keyed_map(s, key).contains_key(k),
    ensures
        keyed_map(s, key).remove(k) == keyed_map(s, key),
{
    assert(keyed_map(s, key).remove(k) =~= keyed_map(s, key));
}

/// Appending a record enters it into the map under its key.
pub proof fn lemma_keyed_map_push<K, V>(s: Seq<V>, key: spec_fn(V) -> K, v: V)
    ensures
        keyed_map(s.push(v), key) == keyed_map(s, key).insert(key(v), v),
{
    assert(s.push(v).drop_last() =~= s);
    assert(s.push(v).last() == v);
}

/// Appending a record whose key is fresh keeps the keys unique.
pub proof fn lemma_unique_keys_push<K, V>(s: Seq<V>, key: spec_fn(V) -> K, v: V)
    requires
        unique_keys(s, key),
        forall|i: int| 0 <= i < s.len() ==> #[trigger] key(s[i]) != key(v),
    ensures
        unique_keys(s.push(v), key),
{
}

} // verus!
