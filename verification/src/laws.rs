//! Laws of the container, stated over the model sequences that the
//! operations' contracts use and proved once and for all.

use vstd::prelude::*;

use crate::order::{key_eqv, key_lt, order_facts, TotalOrder};
use crate::seqs::{
    at_or_above, below, bound, has_key, key_index, lemma_bound_exists, lemma_bound_key,
    lemma_sorted_insert, lemma_sorted_update, sorted,
};

verus! {

/// The model that `IndexTreeMap::insert` promises: a present key keeps
/// its entry and takes the new value; a fresh key gains an entry at its
/// boundary.
pub open spec fn inserted<K: TotalOrder, V>(s: Seq<(K, V)>, k: K, v: V) -> Seq<(K, V)> {
    if has_key(s, k) {
        s.update(key_index(s, k), (s[key_index(s, k)].0, v))
    } else {
        s.insert(bound(s, k), (k, v))
    }
}

/// After an insert the key is found and maps to the inserted value, and
/// the container grew exactly when the key was fresh.
pub proof fn lemma_insert_lookup<K: TotalOrder, V>(s: Seq<(K, V)>, k: K, v: V)
    requires
        sorted(s),
    ensures
        sorted(inserted(s, k, v)),
        has_key(inserted(s, k, v), k),
        inserted(s, k, v)[key_index(inserted(s, k, v), k)].1 == v,
        has_key(s, k) ==> inserted(s, k, v).len() == s.len(),
        !has_key(s, k) ==> inserted(s, k, v).len() == s.len() + 1,
{
    order_facts::<K>();
    lemma_bound_exists(s, k);
    lemma_bound_key(s, k);
    let t = inserted(s, k, v);
    let b = bound(s, k);
    if has_key(s, k) {
        let ki = key_index(s, k);
        lemma_sorted_update(s, ki, (s[ki].0, v));
        assert(key_eqv(t[ki].0, k));
        assert(has_key(t, k));
        lemma_key_index_unique(t, k, ki);
    } else {
        lemma_sorted_insert(s, k, v, b);
        assert(t[b].0 == k);
        assert(key_eqv(t[b].0, k));
        assert(has_key(t, k));
        lemma_key_index_unique(t, k, b);
    }
}

/// In a sorted sequence, a position holding a key equivalent to `k` is
/// the position of `k`.
pub proof fn lemma_key_index_unique<K: TotalOrder, V>(s: Seq<(K, V)>, k: K, i: int)
    requires
        sorted(s),
        0 <= i < s.len(),
        key_eqv(s[i].0, k),
    ensures
        has_key(s, k),
        key_index(s, k) == i,
{
    order_facts::<K>();
    assert(has_key(s, k));
    let j = key_index(s, k);
    assert(0 <= j < s.len() && key_eqv(s[j].0, k));
    if j < i {
        assert(key_lt(s[j].0, s[i].0));
        assert(false);
    }
    if j > i {
        assert(key_lt(s[i].0, s[j].0));
        assert(false);
    }
}

/// Inserting the same key twice leaves the second value in place and the
/// second insert does not change the size.
pub proof fn lemma_insert_twice<K: TotalOrder, V>(s: Seq<(K, V)>, k: K, v1: V, v2: V)
    requires
        sorted(s),
    ensures
        ({
            let t1 = inserted(s, k, v1);
            let t2 = inserted(t1, k, v2);
            &&& has_key(t2, k)
            &&& t2[key_index(t2, k)].1 == v2
            &&& t2.len() == t1.len()
        }),
{
    lemma_insert_lookup(s, k, v1);
    lemma_insert_lookup(inserted(s, k, v1), k, v2);
}

/// The key of rank `r` has rank `r`: looking a key up by rank and asking
/// for that key's rank round-trip.
pub proof fn lemma_rank_of_key_at_index<K: TotalOrder, V>(s: Seq<(K, V)>, r: int)
    requires
        sorted(s),
        0 <= r < s.len(),
    ensures
        has_key(s, s[r].0),
        key_index(s, s[r].0) == r,
{
    order_facts::<K>();
    assert(key_eqv(s[r].0, s[r].0));
    lemma_key_index_unique(s, s[r].0, r);
}

/// After removing a key it is no longer found, and exactly one entry is
/// gone.
pub proof fn lemma_remove_absent<K: TotalOrder, V>(s: Seq<(K, V)>, k: K)
    requires
        sorted(s),
        has_key(s, k),
    ensures
        !has_key(s.remove(key_index(s, k)), k),
        s.remove(key_index(s, k)).len() == s.len() - 1,
{
    order_facts::<K>();
    lemma_bound_key(s, k);
    let ki = key_index(s, k);
    let t = s.remove(ki);
    if has_key(t, k) {
        let j = key_index(t, k);
        assert(0 <= j < t.len() && key_eqv(t[j].0, k));
        if j < ki {
            assert(t[j] == s[j]);
            assert(key_lt(s[j].0, s[ki].0));
            assert(false);
        } else {
            assert(t[j] == s[j + 1]);
            assert(key_lt(s[ki].0, s[j + 1].0));
            assert(false);
        }
    }
}

/// The model of a valid map is strictly sorted by key, with no two
/// entries carrying equivalent keys: walking it rank by rank yields the
/// entries in ascending key order, one per distinct key.
pub proof fn lemma_iteration_sorted<K: TotalOrder, V>(m: crate::IndexTreeMap<K, V>)
    requires
        m.wf(),
    ensures
        sorted(m@),
        forall|i: int, j: int|
            0 <= i < j < m@.len() ==> !key_eqv(#[trigger] m@[i].0, #[trigger] m@[j].0),
{
    order_facts::<K>();
}

/// Splitting at a key partitions the entries: what stays is below the
/// key, what moves is at or above it, and no entry is lost.
pub proof fn lemma_split_partition<K: TotalOrder, V>(s: Seq<(K, V)>, k: K)
    requires
        sorted(s),
    ensures
        below(s.take(bound(s, k)), k),
        at_or_above(s.skip(bound(s, k)), k),
        s.take(bound(s, k)).len() + s.skip(bound(s, k)).len() == s.len(),
        s.take(bound(s, k)) + s.skip(bound(s, k)) =~= s,
{
    lemma_bound_exists(s, k);
}

/// Splitting at rank `r` moves exactly the `s.len() - r` entries of the
/// highest ranks, and keeps each side's entries at their old ranks.
pub proof fn lemma_split_at_rank<K: TotalOrder, V>(s: Seq<(K, V)>, r: int)
    requires
        0 <= r <= s.len(),
    ensures
        s.take(r).len() == r,
        s.skip(r).len() == s.len() - r,
        forall|j: int| 0 <= j < r ==> s.take(r)[j] == s[j],
        forall|j: int| 0 <= j < s.len() - r ==> s.skip(r)[j] == s[r + j],
        s.take(r) + s.skip(r) =~= s,
{
}

} // verus!
