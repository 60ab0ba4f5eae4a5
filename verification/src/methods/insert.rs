//! Insertion, with node splitting and root growth.

use vstd::prelude::*;

use crate::order::TotalOrder;
use crate::seqs::{
    bound, has_key, key_index, lemma_bound_exists, lemma_concat3_insert, lemma_concat3_update,
    lemma_remove_insert, lemma_sorted_insert, lemma_sorted_subrange, lemma_sorted_update, sorted,
};
use crate::stc::{Item, Node, Output, Pointer};
use crate::KEY_ARRAY;

verus! {

impl<K: TotalOrder, V> Node<K, V> {
    /// Place a new entry at slot `index` of a leaf, shifting later slots.
    pub fn insert_to_keys(&mut self, index: usize, key: K, value: V)
        requires
            old(self).leaf,
            old(self).shape(),
            index <= old(self).keys@.len(),
        ensures
            final(self).leaf,
            final(self).shape(),
            final(self).keys@.len() == old(self).keys@.len() + 1,
            final(self).entries() =~= old(self).entries().insert(index as int, (key, value)),
    {
        self.keys.insert(index, Item { key, value });
        proof {
            assert(self.entries() =~= old(self).entries().insert(index as int, (key, value)));
        }
    }

    /// Split a leaf that reached capacity around its median entry.
    pub fn split_leaf(&mut self) -> (r: Output<K, V>)
        requires
            old(self).leaf,
            old(self).shape(),
            KEY_ARRAY <= old(self).keys@.len() <= KEY_ARRAY + 1,
            sorted(old(self).entries()),
        ensures
            final(self).wf(),
            final(self).leaf,
            match r {
                Output::NewKeyPointer(item, ptr) => {
                    &&& ptr.child.wf()
                    &&& ptr.counter == ptr.child.entries().len()
                    &&& final(self).entries() + seq![(item.key, item.value)]
                        + ptr.child.entries() =~= old(self).entries()
                    &&& final(self).keys@.len() < KEY_ARRAY
                    &&& ptr.child.keys@.len() < KEY_ARRAY
                },
                _ => false,
            },
    {
        let mid = KEY_ARRAY / 2;
        let right_keys = self.keys.split_off(mid + 1);
        let item = self.keys.pop().unwrap();
        let counter = right_keys.len();
        let right = Node { keys: right_keys, pointers: Vec::new(), leaf: true };
        proof {
            let s = old(self).entries();
            assert(self.entries() =~= s.subrange(0, mid as int));
            assert(right.entries() =~= s.subrange(mid + 1, s.len() as int));
            lemma_sorted_subrange(s, 0, mid as int);
            lemma_sorted_subrange(s, mid + 1, s.len() as int);
            assert(self.entries() + seq![(item.key, item.value)] + right.entries() =~= s);
        }
        Output::NewKeyPointer(item, Pointer { child: Box::new(right), counter })
    }

    /// Split an internal node that reached capacity around its median
    /// separator, distributing the edges to the two halves.
    pub fn split_parent(&mut self) -> (r: Output<K, V>)
        requires
            !old(self).leaf,
            old(self).shape(),
            KEY_ARRAY <= old(self).keys@.len() <= KEY_ARRAY + 1,
            forall|i: int|
                0 <= i < old(self).pointers@.len() ==> (#[trigger] old(self).pointers@[i]).child.wf()
                    && old(self).pointers@[i].counter == old(
                    self,
                ).pointers@[i].child.entries().len(),
            sorted(old(self).entries()),
            old(self).entries().len() <= usize::MAX,
        ensures
            final(self).wf(),
            !final(self).leaf,
            match r {
                Output::NewKeyPointer(item, ptr) => {
                    &&& ptr.child.wf()
                    &&& ptr.counter == ptr.child.entries().len()
                    &&& final(self).entries() + seq![(item.key, item.value)]
                        + ptr.child.entries() =~= old(self).entries()
                    &&& final(self).keys@.len() < KEY_ARRAY
                    &&& ptr.child.keys@.len() < KEY_ARRAY
                },
                _ => false,
            },
    {
        let mid = KEY_ARRAY / 2;
        let right_keys = self.keys.split_off(mid + 1);
        let item = self.keys.pop().unwrap();
        let right_pointers = self.pointers.split_off(mid + 1);
        let right = Node { keys: right_keys, pointers: right_pointers, leaf: false };
        proof {
            let s = old(self).entries();
            assert(self.keys@ =~= old(self).keys@.take(mid as int));
            assert(self.pointers@ =~= old(self).pointers@.take(mid + 1));
            assert(right.keys@ =~= old(self).keys@.skip(mid + 1));
            assert(right.pointers@ =~= old(self).pointers@.skip(mid + 1));
            old(self).lemma_suffix_node(right, mid + 1);
            old(self).lemma_prefix_node(*self, mid as int);
            assert(old(self).entries_upto(mid + 1) == old(self).entries_upto(mid as int) + old(
                self,
            ).pointers@[mid as int].child.entries() + seq![old(self).kv(mid as int)]);
            old(self).lemma_decompose(mid + 1);
            assert((item.key, item.value) == old(self).kv(mid as int));
            assert(self.entries() + seq![(item.key, item.value)] + right.entries() =~= s);
            assert(self.entries() =~= s.subrange(0, self.entries().len() as int));
            assert(right.entries() =~= s.subrange(
                s.len() - right.entries().len(),
                s.len() as int,
            ));
            lemma_sorted_subrange(s, 0, self.entries().len() as int);
            lemma_sorted_subrange(s, s.len() - right.entries().len(), s.len() as int);
            assert(self.wf());
            assert(right.wf());
        }
        let counter = right.size();
        Output::NewKeyPointer(item, Pointer { child: Box::new(right), counter })
    }

    /// Install a promoted separator and its right edge after child
    /// `index`, splitting this node too when that makes it full.
    pub fn insert_key_pointer(&mut self, index: usize, item: Item<K, V>, ptr: Pointer<K, V>) -> (r:
        Output<K, V>)
        requires
            !old(self).leaf,
            old(self).shape(),
            old(self).keys@.len() <= KEY_ARRAY,
            index <= old(self).keys@.len(),
            forall|i: int|
                0 <= i < old(self).pointers@.len() ==> (#[trigger] old(self).pointers@[i]).child.wf()
                    && old(self).pointers@[i].counter == old(
                    self,
                ).pointers@[i].child.entries().len(),
            ptr.child.wf(),
            ptr.counter == ptr.child.entries().len(),
            sorted(old(self).spliced(index as int, item, ptr)),
            old(self).spliced(index as int, item, ptr).len() <= usize::MAX,
        ensures
            final(self).wf(),
            !final(self).leaf,
            match r {
                Output::Null => final(self).entries() =~= old(self).spliced(
                    index as int,
                    item,
                    ptr,
                ),
                Output::NewKeyPointer(it2, p2) => {
                    &&& p2.child.wf()
                    &&& p2.counter == p2.child.entries().len()
                    &&& final(self).entries() + seq![(it2.key, it2.value)]
                        + p2.child.entries() =~= old(self).spliced(index as int, item, ptr)
                    &&& final(self).keys@.len() < KEY_ARRAY
                    &&& p2.child.keys@.len() < KEY_ARRAY
                },
                _ => false,
            },
    {
        self.keys.insert(index, item);
        self.pointers.insert(index + 1, ptr);
        proof {
            old(self).lemma_insert_slot(*self, index as int, item, ptr);
            assert(self.entries() =~= old(self).spliced(index as int, item, ptr));
            assert forall|i: int| 0 <= i < self.pointers@.len() implies (
            #[trigger] self.pointers@[i]).child.wf() && self.pointers@[i].counter
                == self.pointers@[i].child.entries().len() by {
                if i <= index {
                    assert(self.pointers@[i] == old(self).pointers@[i]);
                } else if i == index + 1 {
                    assert(self.pointers@[i] == ptr);
                } else {
                    assert(self.pointers@[i] == old(self).pointers@[i - 1]);
                }
            }
        }
        if self.keys.len() >= KEY_ARRAY {
            self.split_parent()
        } else {
            Output::Null
        }
    }

    /// Grow the tree by one level: this root becomes the left child of a
    /// fresh root holding the promoted separator and right edge.
    pub fn update_root(&mut self, item: Item<K, V>, ptr: Pointer<K, V>)
        requires
            old(self).wf(),
            ptr.child.wf(),
            ptr.counter == ptr.child.entries().len(),
            sorted(old(self).entries() + seq![(item.key, item.value)] + ptr.child.entries()),
            old(self).entries().len() + 1 + ptr.counter <= usize::MAX,
        ensures
            final(self).wf(),
            final(self).entries() =~= old(self).entries() + seq![(item.key, item.value)]
                + ptr.child.entries(),
            final(self).keys@.len() == 1,
    {
        let mut left = Node { keys: Vec::new(), pointers: Vec::new(), leaf: true };
        core::mem::swap(&mut left, self);
        let lsize = left.size();
        let lptr = Pointer { child: Box::new(left), counter: lsize };
        self.keys.push(item);
        self.pointers.push(lptr);
        self.pointers.push(ptr);
        self.leaf = false;
        proof {
            assert(self.entries_from(1) == self.pointers@[1].child.entries());
            assert(self.entries_from(0) == self.pointers@[0].child.entries() + seq![self.kv(0)]
                + self.entries_from(1));
            assert(self.entries() =~= old(self).entries() + seq![(item.key, item.value)]
                + ptr.child.entries());
        }
    }

    /// Split a root that reached capacity in place: it becomes a root
    /// with a single separator and two children, one level taller.
    pub fn split_root(&mut self)
        requires
            old(self).wf(),
            old(self).keys@.len() == KEY_ARRAY,
        ensures
            final(self).wf(),
            final(self).entries() =~= old(self).entries(),
            final(self).keys@.len() == 1,
    {
        let out = if self.leaf {
            self.split_leaf()
        } else {
            self.split_parent()
        };
        match out {
            Output::NewKeyPointer(item, ptr) => {
                self.update_root(item, ptr);
            },
            _ => {
                proof {
                    assert(false);
                }
            },
        }
    }

    /// Insert `key`/`value` into this subtree.  Reports whether the key
    /// was already present, or the split that bubbled up.
    #[verifier::rlimit(60)]
    pub fn insert(&mut self, key: K, value: V) -> (r: Output<K, V>)
        requires
            old(self).wf(),
            old(self).entries().len() < usize::MAX,
        ensures
            final(self).wf(),
            match r {
                Output::KeyExists => {
                    &&& has_key(old(self).entries(), key)
                    &&& final(self).entries() =~= old(self).entries().update(
                        key_index(old(self).entries(), key),
                        (old(self).entries()[key_index(old(self).entries(), key)].0, value),
                    )
                },
                Output::Null => {
                    &&& !has_key(old(self).entries(), key)
                    &&& final(self).entries() =~= old(self).entries().insert(
                        bound(old(self).entries(), key),
                        (key, value),
                    )
                },
                Output::NewKeyPointer(item, ptr) => {
                    &&& !has_key(old(self).entries(), key)
                    &&& ptr.child.wf()
                    &&& ptr.counter == ptr.child.entries().len()
                    &&& final(self).entries() + seq![(item.key, item.value)]
                        + ptr.child.entries() =~= old(self).entries().insert(
                        bound(old(self).entries(), key),
                        (key, value),
                    )
                },
            },
        decreases *old(self),
    {
        let ghost s_old = self.entries();
        let (index, eq) = self.find_slot(&key);
        if eq {
            // overwrite the stored value; the stored key stays
            proof {
                if self.leaf {
                    self.lemma_locate_leaf_eq(key, index as int);
                } else {
                    self.lemma_locate_eq(key, index as int);
                }
            }
            let mut it = self.keys.remove(index);
            it.value = value;
            self.keys.insert(index, it);
            proof {
                lemma_remove_insert(old(self).keys@, index as int, it);
                let ki = key_index(s_old, key);
                if self.leaf {
                    assert(self.entries() =~= s_old.update(ki, (s_old[ki].0, value)));
                } else {
                    old(self).lemma_slot_replaced(*self, index as int);
                    old(self).lemma_at(index as int);
                    lemma_concat3_update(
                        old(self).entries_upto(index as int)
                            + old(self).pointers@[index as int].child.entries(),
                        seq![old(self).kv(index as int)],
                        old(self).entries_from(index + 1),
                        0,
                        (s_old[ki].0, value),
                    );
                    assert(self.entries() =~= s_old.update(ki, (s_old[ki].0, value)));
                }
                lemma_sorted_update(s_old, ki, (s_old[ki].0, value));
            }
            return Output::KeyExists;
        }
        if self.leaf {
            proof {
                self.lemma_locate_leaf(key, index as int);
                lemma_bound_exists(s_old, key);
                lemma_sorted_insert(s_old, key, value, index as int);
            }
            self.insert_to_keys(index, key, value);
            if self.keys.len() >= KEY_ARRAY {
                self.split_leaf()
            } else {
                Output::Null
            }
        } else {
            let ghost ch_old = self.pointers@[index as int].child.entries();
            let ghost off = self.entries_upto(index as int).len() as int;
            let ghost bc = bound(ch_old, key);
            proof {
                self.lemma_locate(key, index as int);
                self.lemma_at(index as int);
                assert(self.pointers@[index as int].child.wf());
                lemma_bound_exists(ch_old, key);
                assert(decreases_to!(*old(self) => *old(self).pointers@[index as int].child));
            }
            let mut p = self.pointers.remove(index);
            let out = p.child.insert(key, value);
            match out {
                Output::KeyExists => {
                    self.pointers.insert(index, p);
                    proof {
                        lemma_remove_insert(old(self).pointers@, index as int, p);
                        assert(self.pointers@ =~= old(self).pointers@.update(index as int, p));
                        old(self).lemma_child_replaced(*self, index as int);
                        let kic = key_index(ch_old, key);
                        let ki = key_index(s_old, key);
                        lemma_concat3_update(
                            old(self).entries_upto(index as int),
                            ch_old,
                            old(self).rest_from(index as int),
                            kic,
                            (ch_old[kic].0, value),
                        );
                        assert(self.entries() =~= s_old.update(ki, (s_old[ki].0, value)));
                        lemma_sorted_update(s_old, ki, (s_old[ki].0, value));
                        assert forall|j: int| 0 <= j < self.pointers@.len() implies (
                        #[trigger] self.pointers@[j]).child.wf() && self.pointers@[j].counter
                            == self.pointers@[j].child.entries().len() by {
                            if j != index {
                                assert(self.pointers@[j] == old(self).pointers@[j]);
                            }
                        }
                    }
                    Output::KeyExists
                },
                Output::Null => {
                    p.counter = p.counter + 1;
                    self.pointers.insert(index, p);
                    proof {
                        lemma_remove_insert(old(self).pointers@, index as int, p);
                        assert(self.pointers@ =~= old(self).pointers@.update(index as int, p));
                        old(self).lemma_child_replaced(*self, index as int);
                        lemma_concat3_insert(
                            old(self).entries_upto(index as int),
                            ch_old,
                            old(self).rest_from(index as int),
                            bc,
                            (key, value),
                        );
                        assert(self.entries() =~= s_old.insert(off + bc, (key, value)));
                        lemma_bound_exists(s_old, key);
                        lemma_sorted_insert(s_old, key, value, off + bc);
                        assert forall|j: int| 0 <= j < self.pointers@.len() implies (
                        #[trigger] self.pointers@[j]).child.wf() && self.pointers@[j].counter
                            == self.pointers@[j].child.entries().len() by {
                            if j != index {
                                assert(self.pointers@[j] == old(self).pointers@[j]);
                            }
                        }
                    }
                    Output::Null
                },
                Output::NewKeyPointer(item, rptr) => {
                    proof {
                        assert(p.child.entries().len() + 1 + rptr.child.entries().len()
                            == ch_old.insert(bc, (key, value)).len());
                    }
                    p.counter = p.counter - rptr.counter;
                    self.pointers.insert(index, p);
                    proof {
                        lemma_remove_insert(old(self).pointers@, index as int, p);
                        assert(self.pointers@ =~= old(self).pointers@.update(index as int, p));
                        old(self).lemma_upto_congruence(*self, index as int);
                        if index < old(self).keys@.len() {
                            old(self).lemma_from_congruence(*self, index + 1);
                        }
                        assert(self.rest_from(index as int) == old(self).rest_from(index as int));
                        old(self).lemma_split_at_child(index as int);
                        assert(s_old =~= old(self).entries_upto(index as int) + ch_old + old(
                            self,
                        ).rest_from(index as int));
                        lemma_concat3_insert(
                            old(self).entries_upto(index as int),
                            ch_old,
                            old(self).rest_from(index as int),
                            bc,
                            (key, value),
                        );
                        assert(self.spliced(index as int, item, rptr) =~= s_old.insert(
                            off + bc,
                            (key, value),
                        ));
                        lemma_bound_exists(s_old, key);
                        lemma_sorted_insert(s_old, key, value, off + bc);
                        assert forall|j: int| 0 <= j < self.pointers@.len() implies (
                        #[trigger] self.pointers@[j]).child.wf() && self.pointers@[j].counter
                            == self.pointers@[j].child.entries().len() by {
                            if j != index {
                                assert(self.pointers@[j] == old(self).pointers@[j]);
                            }
                        }
                    }
                    self.insert_key_pointer(index, item, rptr)
                },
            }
        }
    }
}

impl<K: TotalOrder, V> crate::IndexTreeMap<K, V> {
    /// Insert `key`/`value`: a fresh key gains an entry at its place in
    /// the order; a present key keeps its entry and takes the new value.
    pub fn insert(&mut self, key: K, value: V)
        requires
            old(self).wf(),
            old(self)@.len() < usize::MAX,
        ensures
            final(self).wf(),
            has_key(old(self)@, key) ==> final(self)@ =~= old(self)@.update(
                key_index(old(self)@, key),
                (old(self)@[key_index(old(self)@, key)].0, value),
            ) && final(self)@.len() == old(self)@.len(),
            !has_key(old(self)@, key) ==> final(self)@ =~= old(self)@.insert(
                bound(old(self)@, key),
                (key, value),
            ) && final(self)@.len() == old(self)@.len() + 1,
    {
        let ghost s_old = self.root.entries();
        proof {
            lemma_bound_exists(s_old, key);
            crate::seqs::lemma_bound_key(s_old, key);
        }
        match self.root.insert(key, value) {
            Output::KeyExists => {
            },
            Output::Null => {
                self.size = self.size + 1;
            },
            Output::NewKeyPointer(item, ptr) => {
                proof {
                    lemma_bound_exists(s_old, key);
                    lemma_sorted_insert(s_old, key, value, bound(s_old, key));
                    lemma_sorted_subrange(
                        s_old.insert(bound(s_old, key), (key, value)),
                        0,
                        s_old.len() as int + 1,
                    );
                }
                self.root.update_root(item, ptr);
                self.size = self.size + 1;
            },
        }
    }
}

} // verus!
