//! Spec-level vocabulary and lemmas for sequences of key/value entries.
//!
//! Every contract of the container speaks about such a sequence: the
//! entries in key order.  This module defines what it means for the
//! sequence to be sorted, where a key sits in it, and where a key would be
//! inserted, together with the lemmas the tree proofs lean on.

use vstd::prelude::*;

use crate::order::{key_eqv, key_lt, order_facts, TotalOrder};

verus! {

/// Keys strictly increase along the sequence.
pub open spec fn sorted<K: TotalOrder, V>(s: Seq<(K, V)>) -> bool {
    forall|i: int, j: int|
        0 <= i < j < s.len() ==> key_lt(#[trigger] s[i].0, #[trigger] s[j].0)
}

/// Some entry's key is equivalent to `k`.
pub open spec fn has_key<K: TotalOrder, V>(s: Seq<(K, V)>, k: K) -> bool {
    exists|i: int| 0 <= i < s.len() && key_eqv(#[trigger] s[i].0, k)
}

/// The position of the entry whose key is equivalent to `k`.
pub open spec fn key_index<K: TotalOrder, V>(s: Seq<(K, V)>, k: K) -> int {
    choose|i: int| 0 <= i < s.len() && key_eqv(#[trigger] s[i].0, k)
}

/// Every key of `s` is strictly below `k`.
pub open spec fn below<K: TotalOrder, V>(s: Seq<(K, V)>, k: K) -> bool {
    forall|i: int| 0 <= i < s.len() ==> key_lt(#[trigger] s[i].0, k)
}

/// No key of `s` is strictly below `k`.
pub open spec fn at_or_above<K: TotalOrder, V>(s: Seq<(K, V)>, k: K) -> bool {
    forall|i: int| 0 <= i < s.len() ==> !key_lt(#[trigger] s[i].0, k)
}

/// `b` is the boundary of `k` in `s`: everything before it is below `k`,
/// nothing from it on is.
pub open spec fn is_bound<K: TotalOrder, V>(s: Seq<(K, V)>, k: K, b: int) -> bool {
    &&& 0 <= b <= s.len()
    &&& below(s.take(b), k)
    &&& at_or_above(s.skip(b), k)
}

/// The boundary of `k` in `s`: the number of entries whose key is strictly
/// below `k`.  For sorted `s` it exists and is unique.
pub open spec fn bound<K: TotalOrder, V>(s: Seq<(K, V)>, k: K) -> int {
    choose|b: int| is_bound(s, k, b)
}

/// In a sorted sequence the boundary of any key exists.
pub proof fn lemma_bound_exists<K: TotalOrder, V>(s: Seq<(K, V)>, k: K)
    requires
        sorted(s),
    ensures
        is_bound(s, k, bound(s, k)),
    decreases s.len(),
{
    order_facts::<K>();
    if s.len() == 0 {
        assert(is_bound(s, k, 0));
    } else if !key_lt(s[0].0, k) {
        assert(s.skip(0) =~= s);
        assert forall|i: int| 0 <= i < s.len() implies !key_lt(#[trigger] s[i].0, k) by {
            if i > 0 && key_lt(s[i].0, k) {
                assert(key_lt(s[0].0, s[i].0));
                assert(key_lt(s[0].0, k));
            }
        }
        assert(is_bound(s, k, 0));
    } else {
        let t = s.skip(1);
        assert(sorted::<K, V>(t)) by {
            assert forall|i: int, j: int| 0 <= i < j < t.len() implies key_lt(
                #[trigger] t[i].0,
                #[trigger] t[j].0,
            ) by {
                assert(t[i] == s[i + 1] && t[j] == s[j + 1]);
            }
        }
        lemma_bound_exists(t, k);
        let b = bound(t, k);
        assert(is_bound(t, k, b));
        assert forall|i: int| 0 <= i < b + 1 implies key_lt(#[trigger] s.take(b + 1)[i].0, k) by {
            if i == 0 {
            } else {
                assert(s.take(b + 1)[i] == t.take(b)[i - 1]);
            }
        }
        assert(s.skip(b + 1) =~= t.skip(b));
        assert(is_bound(s, k, b + 1));
    }
}

/// Boundaries are unique.
pub proof fn lemma_bound_unique<K: TotalOrder, V>(s: Seq<(K, V)>, k: K, b1: int, b2: int)
    requires
        is_bound(s, k, b1),
        is_bound(s, k, b2),
    ensures
        b1 == b2,
{
    if b1 < b2 {
        assert(key_lt(s.take(b2)[b1].0, k));
        assert(!key_lt(s.skip(b1)[0].0, k));
        assert(s.take(b2)[b1] == s[b1] && s.skip(b1)[0] == s[b1]);
    } else if b2 < b1 {
        assert(key_lt(s.take(b1)[b2].0, k));
        assert(!key_lt(s.skip(b2)[0].0, k));
        assert(s.take(b1)[b2] == s[b2] && s.skip(b2)[0] == s[b2]);
    }
}

/// Exhibiting the two pointwise facts pins the boundary.
pub proof fn lemma_bound_is<K: TotalOrder, V>(s: Seq<(K, V)>, k: K, b: int)
    requires
        sorted(s),
        is_bound(s, k, b),
    ensures
        bound(s, k) == b,
{
    lemma_bound_exists(s, k);
    lemma_bound_unique(s, k, bound(s, k), b);
}

/// In a sorted sequence, a key is present exactly when the entry at its
/// boundary carries an equivalent key, and then the boundary is its
/// position.
pub proof fn lemma_bound_key<K: TotalOrder, V>(s: Seq<(K, V)>, k: K)
    requires
        sorted(s),
    ensures
        has_key(s, k) <==> (bound(s, k) < s.len() && key_eqv(s[bound(s, k)].0, k)),
        has_key(s, k) ==> key_index(s, k) == bound(s, k),
        has_key(s, k) ==> 0 <= bound(s, k) < s.len(),
{
    order_facts::<K>();
    lemma_bound_exists(s, k);
    let b = bound(s, k);
    if has_key(s, k) {
        let i = key_index(s, k);
        assert(0 <= i < s.len() && key_eqv(s[i].0, k));
        if i < b {
            assert(key_lt(s.take(b)[i].0, k));
            assert(s.take(b)[i] == s[i]);
            assert(false);
        }
        if i > b {
            assert(!key_lt(s.skip(b)[0].0, k));
            assert(s.skip(b)[0] == s[b]);
            assert(key_lt(s[b].0, s[i].0));
            assert(false);
        }
    } else {
        if b < s.len() && key_eqv(s[b].0, k) {
            assert(0 <= b < s.len() && key_eqv(s[b].0, k));
            assert(has_key(s, k));
        }
    }
}

/// Gluing two sorted runs whose keys are separated stays sorted.
pub proof fn lemma_sorted_concat<K: TotalOrder, V>(a: Seq<(K, V)>, b: Seq<(K, V)>)
    requires
        sorted(a),
        sorted(b),
        forall|i: int, j: int|
            0 <= i < a.len() && 0 <= j < b.len() ==> key_lt(
                #[trigger] a[i].0,
                #[trigger] b[j].0,
            ),
    ensures
        sorted(a + b),
{
    assert forall|i: int, j: int| 0 <= i < j < (a + b).len() implies key_lt(
        #[trigger] (a + b)[i].0,
        #[trigger] (a + b)[j].0,
    ) by {
        if j < a.len() {
            assert((a + b)[i] == a[i] && (a + b)[j] == a[j]);
        } else if i >= a.len() {
            assert((a + b)[i] == b[i - a.len()] && (a + b)[j] == b[j - a.len()]);
        } else {
            assert((a + b)[i] == a[i] && (a + b)[j] == b[j - a.len()]);
        }
    }
}

/// Inserting inside the middle run of a three-way concatenation.
pub proof fn lemma_concat3_insert<T>(a: Seq<T>, b: Seq<T>, c: Seq<T>, p: int, x: T)
    requires
        0 <= p <= b.len(),
    ensures
        (a + b + c).insert(a.len() + p, x) =~= a + b.insert(p, x) + c,
{
}

/// Updating inside the middle run of a three-way concatenation.
pub proof fn lemma_concat3_update<T>(a: Seq<T>, b: Seq<T>, c: Seq<T>, p: int, x: T)
    requires
        0 <= p < b.len(),
    ensures
        (a + b + c).update(a.len() + p, x) =~= a + b.update(p, x) + c,
{
}

/// Removing from the middle run of a three-way concatenation.
pub proof fn lemma_concat3_remove<T>(a: Seq<T>, b: Seq<T>, c: Seq<T>, p: int)
    requires
        0 <= p < b.len(),
    ensures
        (a + b + c).remove(a.len() + p) =~= a + b.remove(p) + c,
{
    assert forall|q: int| 0 <= q < (a + b + c).remove(a.len() + p).len() implies (a + b
        + c).remove(a.len() + p)[q] == (a + b.remove(p) + c)[q] by {
        if q < a.len() + p {
        } else {
        }
    }
}

/// Removing an element and putting another in its place is an update.
pub proof fn lemma_remove_insert<T>(s: Seq<T>, i: int, x: T)
    requires
        0 <= i < s.len(),
    ensures
        s.remove(i).insert(i, x) =~= s.update(i, x),
{
}

/// Inserting a fresh key at its boundary keeps the sequence sorted.
pub proof fn lemma_sorted_insert<K: TotalOrder, V>(s: Seq<(K, V)>, k: K, v: V, b: int)
    requires
        sorted(s),
        is_bound(s, k, b),
        !has_key(s, k),
    ensures
        sorted(s.insert(b, (k, v))),
{
    order_facts::<K>();
    let t = s.insert(b, (k, v));
    assert forall|i: int, j: int| 0 <= i < j < t.len() implies key_lt(
        #[trigger] t[i].0,
        #[trigger] t[j].0,
    ) by {
        assert(forall|p: int| 0 <= p < b ==> #[trigger] s[p] == s.take(b)[p]);
        assert(forall|p: int| b <= p < s.len() ==> #[trigger] s[p] == s.skip(b)[p - b]);
        assert(forall|p: int|
            b <= p < s.len() ==> !key_lt(#[trigger] s[p].0, k) && !key_eqv(s[p].0, k));
        assert(forall|p: int| b <= p < s.len() ==> key_lt(k, #[trigger] s[p].0));
        if i < b && j == b {
            assert(t[i] == s[i] && t[j].0 == k);
        } else if i == b {
            assert(t[i].0 == k && t[j] == s[j - 1]);
        } else if j > b && i < b {
            assert(t[i] == s[i] && t[j] == s[j - 1]);
        } else if j < b {
            assert(t[i] == s[i] && t[j] == s[j]);
        } else {
            assert(t[i] == s[i - 1] && t[j] == s[j - 1]);
        }
    }
}

/// Replacing a value, keeping the key, keeps the sequence sorted.
pub proof fn lemma_sorted_update<K: TotalOrder, V>(s: Seq<(K, V)>, i: int, x: (K, V))
    requires
        sorted(s),
        0 <= i < s.len(),
        x.0 == s[i].0,
    ensures
        sorted(s.update(i, x)),
{
}

/// Removing an entry keeps the sequence sorted.
pub proof fn lemma_sorted_remove<K: TotalOrder, V>(s: Seq<(K, V)>, i: int)
    requires
        sorted(s),
        0 <= i < s.len(),
    ensures
        sorted(s.remove(i)),
{
    assert forall|p: int, q: int| 0 <= p < q < s.remove(i).len() implies key_lt(
        #[trigger] s.remove(i)[p].0,
        #[trigger] s.remove(i)[q].0,
    ) by {
        assert(s.remove(i)[p] == (if p < i {
            s[p]
        } else {
            s[p + 1]
        }));
        assert(s.remove(i)[q] == (if q < i {
            s[q]
        } else {
            s[q + 1]
        }));
    }
}

/// Any contiguous piece of a sorted sequence is sorted, and pointwise
/// bounds of the whole carry to the piece.
pub proof fn lemma_sorted_subrange<K: TotalOrder, V>(s: Seq<(K, V)>, i: int, j: int)
    requires
        sorted(s),
        0 <= i <= j <= s.len(),
    ensures
        sorted(s.subrange(i, j)),
{
    assert forall|p: int, q: int| 0 <= p < q < (s.subrange(i, j)).len() implies key_lt(
        #[trigger] s.subrange(i, j)[p].0,
        #[trigger] s.subrange(i, j)[q].0,
    ) by {
        assert(s.subrange(i, j)[p] == s[i + p] && s.subrange(i, j)[q] == s[i + q]);
    }
}

} // verus!
