//! Locating a key within the slots of a single node.

use vstd::prelude::*;

use crate::order::{key_eqv, key_lt, Cmp, TotalOrder};
use crate::stc::Node;

verus! {

impl<K: TotalOrder, V> Node<K, V> {
    /// Scan the slots of this node for `key`.  Returns the first slot
    /// whose key is not below `key`, and whether that slot's key matches.
    pub fn find_slot(&self, key: &K) -> (r: (usize, bool))
        ensures
            r.0 <= self.keys@.len(),
            forall|j: int| 0 <= j < r.0 ==> key_lt(#[trigger] self.keys@[j].key, *key),
            r.1 ==> r.0 < self.keys@.len() && key_eqv(self.keys@[r.0 as int].key, *key),
            !r.1 && r.0 < self.keys@.len() ==> key_lt(*key, self.keys@[r.0 as int].key),
    {
        let mut i: usize = 0;
        while i < self.keys.len()
            invariant
                0 <= i <= self.keys@.len(),
                forall|j: int| 0 <= j < i ==> key_lt(#[trigger] self.keys@[j].key, *key),
            decreases self.keys@.len() - i,
        {
            match key.compare(&self.keys[i].key) {
                Cmp::Less => {
                    return (i, false);
                },
                Cmp::Equal => {
                    return (i, true);
                },
                Cmp::Greater => {
                    i = i + 1;
                },
            }
        }
        (i, false)
    }

    /// Binary search over the slots of this node alone: `Ok` with the slot
    /// of a matching key, or `Err` with the slot where the key would be
    /// placed.
    pub fn binary_search(&self, key: &K) -> (r: Result<usize, usize>)
        requires
            forall|i: int, j: int|
                0 <= i < j < self.keys@.len() ==> key_lt(
                    (#[trigger] self.keys@[i]).key,
                    (#[trigger] self.keys@[j]).key,
                ),
        ensures
            match r {
                Ok(i) => i < self.keys@.len() && key_eqv(self.keys@[i as int].key, *key),
                Err(i) => {
                    &&& i <= self.keys@.len()
                    &&& forall|j: int| 0 <= j < i ==> key_lt(#[trigger] self.keys@[j].key, *key)
                    &&& forall|j: int|
                        i <= j < self.keys@.len() ==> key_lt(*key, #[trigger] self.keys@[j].key)
                },
            },
    {
        proof {
            crate::order::order_facts::<K>();
        }
        let mut lo: usize = 0;
        let mut hi: usize = self.keys.len();
        while lo < hi
            invariant
                0 <= lo <= hi <= self.keys@.len(),
                forall|i: int, j: int|
                    0 <= i < j < self.keys@.len() ==> key_lt(
                        (#[trigger] self.keys@[i]).key,
                        (#[trigger] self.keys@[j]).key,
                    ),
                forall|j: int| 0 <= j < lo ==> key_lt(#[trigger] self.keys@[j].key, *key),
                forall|j: int|
                    hi <= j < self.keys@.len() ==> key_lt(*key, #[trigger] self.keys@[j].key),
            decreases hi - lo,
        {
            proof {
                crate::order::order_facts::<K>();
            }
            let mid = lo + (hi - lo) / 2;
            match key.compare(&self.keys[mid].key) {
                Cmp::Less => {
                    hi = mid;
                },
                Cmp::Equal => {
                    return Ok(mid);
                },
                Cmp::Greater => {
                    lo = mid + 1;
                },
            }
        }
        Err(lo)
    }
}

} // verus!
