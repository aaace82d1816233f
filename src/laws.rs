//! Laws of the map, stated over the contracts of its operations.
use vstd::prelude::*;

use crate::digest::{key_slot, paths_collide, sea_digest, MAX_DEPTH};
use crate::{after_insert, fits, keys_of, lists_exactly, lookup, Hamt};

verus! {

/// A key that fits is found with its value right after it is inserted.
pub proof fn law_insert_then_get<V>(m: Map<u64, V>, key: u64, val: V)
    requires
        fits(m, key),
    ensures
        lookup(after_insert(m, key, val), key) == Some(val),
{
}

/// Inserting a present key hands back the value it had, keeps the same
/// keys, and leaves the new value in its place.
pub proof fn law_replace<V>(m: Map<u64, V>, key: u64, val: V)
    requires
        m.contains_key(key),
    ensures
        lookup(m, key) == Some(m[key]),
        after_insert(m, key, val).dom() == m.dom(),
        after_insert(m, key, val).len() == m.len(),
        lookup(after_insert(m, key, val), key) == Some(val),
{
    assert(after_insert(m, key, val).dom() =~= m.dom());
}

/// Removing a present key hands back its value and the key is gone;
/// removing an absent key hands back nothing and changes nothing.
pub proof fn law_remove<V>(m: Map<u64, V>, key: u64)
    ensures
        m.contains_key(key) ==> lookup(m, key) == Some(m[key]),
        !m.contains_key(key) ==> lookup(m, key) is None && m.remove(key) == m,
        lookup(m.remove(key), key) is None,
{
    if !m.contains_key(key) {
        assert(m.remove(key) =~= m);
    }
}

/// A well-formed trie holding a single pair holds it as a leaf of the
/// root; one holding nothing has four empty root buckets.
pub proof fn law_collapsed<V>(h: Hamt<V>)
    requires
        h.wf(),
    ensures
        h@.dom().len() == 1 ==> h.is_single_leaf(),
        h@.dom().len() == 0 ==> h.is_all_empty(),
{
    law_ranks_cover(h);
    h.lemma_small_node(0);
}

/// In a well-formed trie every link caches the exact leaf count of the
/// subtree below it.
pub proof fn law_counts_exact<V>(h: Hamt<V>)
    requires
        h.wf(),
    ensures
        h.counts_exact(),
{
    h.lemma_counts_exact_at(0);
}

/// The keys of the leaves of a well-formed trie are distinct and are
/// exactly the keys of its map.
proof fn lemma_leaf_keys<V>(h: Hamt<V>)
    requires
        h.wf(),
    ensures
        lists_exactly(h.leaves(), h@),
        keys_of(h.leaves()).no_duplicates(),
        keys_of(h.leaves()).to_set() == h@.dom(),
{
    h.lemma_lists_exactly_at(0);
    let ks = keys_of(h.leaves());
    assert forall|i: int, j: int| 0 <= i < ks.len() && 0 <= j < ks.len() && i != j implies ks[i]
        != ks[j] by {
        if i < j {
            assert(h.leaves()[i].key != h.leaves()[j].key);
        } else {
            assert(h.leaves()[j].key != h.leaves()[i].key);
        }
    }
    assert forall|k: u64| ks.to_set().contains(k) implies h@.dom().contains(k) by {
        let i = choose|i: int| 0 <= i < ks.len() && ks[i] == k;
        assert(h.leaves()[i].key == k);
    }
    assert forall|k: u64| h@.dom().contains(k) implies ks.to_set().contains(k) by {
        assert(h@.contains_key(k));
        let i = choose|i: int| 0 <= i < h.leaves().len() && #[trigger] h.leaves()[i].key == k;
        assert(ks[i] == k);
    }
    assert(ks.to_set() =~= h@.dom());
}

/// The ranks `0..n` of a well-formed trie holding `n` keys reach each
/// stored pair exactly once.
pub proof fn law_ranks_cover<V>(h: Hamt<V>)
    requires
        h.wf(),
    ensures
        h.leaves().len() == h@.dom().len(),
        lists_exactly(h.leaves(), h@),
{
    lemma_leaf_keys(h);
    keys_of(h.leaves()).unique_seq_to_set();
}

/// Iterating a well-formed trie yields each stored key once, and nothing
/// else.
pub proof fn law_iteration_complete<V>(h: Hamt<V>)
    requires
        h.wf(),
    ensures
        keys_of(h.leaves()).no_duplicates(),
        keys_of(h.leaves()).to_set() == h@.dom(),
{
    lemma_leaf_keys(h);
}

/// Two distinct keys with the same digest are never conflated: once one
/// is stored, inserting the other keeps the first key's value and does
/// not store the second under it.
pub proof fn law_digest_collision<V>(m: Map<u64, V>, k1: u64, k2: u64, v2: V)
    requires
        k1 != k2,
        m.contains_key(k1),
        sea_digest(k1) == sea_digest(k2),
    ensures
        lookup(after_insert(m, k2, v2), k1) == Some(m[k1]),
        !m.contains_key(k2) ==> lookup(after_insert(m, k2, v2), k2) is None,
{
    assert(paths_collide(k1, k2)) by {
        assert forall|d: int| 0 <= d < MAX_DEPTH implies #[trigger] key_slot(k1, d) == key_slot(
            k2,
            d,
        ) by {}
    }
}

} // verus!
