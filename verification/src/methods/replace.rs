//! Replacing the value of an existing entry, by key or by rank.  These
//! walks never change the tree's structure.

use vstd::prelude::*;

use crate::order::TotalOrder;
use crate::seqs::{
    has_key, key_index, lemma_concat3_update, lemma_remove_insert, lemma_sorted_update,
};
use crate::stc::{Item, Node};

verus! {

impl<K: TotalOrder, V> Node<K, V> {
    /// Swap the value at slot `index` for `value`, returning the old one.
    fn swap_slot_value(&mut self, index: usize, value: V) -> (r: V)
        requires
            index < old(self).keys@.len(),
        ensures
            r == old(self).keys@[index as int].value,
            final(self).keys@ == old(self).keys@.update(
                index as int,
                (Item { key: old(self).keys@[index as int].key, value }),
            ),
            final(self).pointers@ == old(self).pointers@,
            final(self).leaf == old(self).leaf,
    {
        let it = self.keys.remove(index);
        let Item { key, value: prev } = it;
        self.keys.insert(index, Item { key, value });
        proof {
            lemma_remove_insert(old(self).keys@, index as int, (Item {
                key: old(self).keys@[index as int].key,
                value,
            }));
        }
        prev
    }

    /// Replace the value stored under `key`, returning the one it held.
    pub fn replace(&mut self, key: &K, value: V) -> (r: Option<V>)
        requires
            old(self).wf(),
        ensures
            final(self).wf(),
            match r {
                Some(v) => {
                    &&& has_key(old(self).entries(), *key)
                    &&& v == old(self).entries()[key_index(old(self).entries(), *key)].1
                    &&& final(self).entries() =~= old(self).entries().update(
                        key_index(old(self).entries(), *key),
                        (old(self).entries()[key_index(old(self).entries(), *key)].0, value),
                    )
                },
                None => !has_key(old(self).entries(), *key) && final(self).entries() == old(
                    self,
                ).entries(),
            },
        decreases *old(self),
    {
        let (index, eq) = self.find_slot(key);
        if eq {
            proof {
                if self.leaf {
                    self.lemma_locate_leaf_eq(*key, index as int);
                } else {
                    self.lemma_locate_eq(*key, index as int);
                }
            }
            let ghost ki = key_index(old(self).entries(), *key);
            let prev = self.swap_slot_value(index, value);
            proof {
                if self.leaf {
                    assert(self.entries() =~= old(self).entries().update(
                        ki,
                        (old(self).entries()[ki].0, value),
                    ));
                } else {
                    old(self).lemma_slot_replaced(*self, index as int);
                    old(self).lemma_at(index as int);
                    lemma_concat3_update(
                        old(self).entries_upto(index as int) + old(
                            self,
                        ).pointers@[index as int].child.entries(),
                        seq![old(self).kv(index as int)],
                        old(self).entries_from(index + 1),
                        0,
                        (old(self).entries()[ki].0, value),
                    );
                    assert(self.entries() =~= old(self).entries().update(
                        ki,
                        (old(self).entries()[ki].0, value),
                    ));
                }
                lemma_sorted_update(old(self).entries(), ki, (old(self).entries()[ki].0, value));
            }
            Some(prev)
        } else if self.leaf {
            proof {
                self.lemma_locate_leaf(*key, index as int);
            }
            None
        } else {
            let ghost ch_old = self.pointers@[index as int].child.entries();
            proof {
                self.lemma_locate(*key, index as int);
                self.lemma_at(index as int);
                assert(self.pointers@[index as int].child.wf());
                assert(decreases_to!(*old(self) => *old(self).pointers@[index as int].child));
            }
            let mut p = self.pointers.remove(index);
            let out = p.child.replace(key, value);
            self.pointers.insert(index, p);
            proof {
                lemma_remove_insert(old(self).pointers@, index as int, p);
                assert(self.pointers@ =~= old(self).pointers@.update(index as int, p));
                old(self).lemma_child_replaced(*self, index as int);
                if out is Some {
                    let kic = key_index(ch_old, *key);
                    let ki = key_index(old(self).entries(), *key);
                    lemma_concat3_update(
                        old(self).entries_upto(index as int),
                        ch_old,
                        old(self).rest_from(index as int),
                        kic,
                        (ch_old[kic].0, value),
                    );
                    assert(self.entries() =~= old(self).entries().update(
                        ki,
                        (old(self).entries()[ki].0, value),
                    ));
                    lemma_sorted_update(
                        old(self).entries(),
                        ki,
                        (old(self).entries()[ki].0, value),
                    );
                } else {
                    assert(self.entries() =~= old(self).entries());
                }
                assert forall|j: int| 0 <= j < self.pointers@.len() implies (
                #[trigger] self.pointers@[j]).child.wf() && self.pointers@[j].counter
                    == self.pointers@[j].child.entries().len() by {
                    if j != index {
                        assert(self.pointers@[j] == old(self).pointers@[j]);
                    }
                }
            }
            out
        }
    }

    /// Replace the value of the entry at rank `index`, returning the one
    /// it held.
    pub fn replace_from_index(&mut self, index: usize, value: V) -> (r: Option<V>)
        requires
            old(self).wf(),
        ensures
            final(self).wf(),
            match r {
                Some(v) => {
                    &&& index < old(self).entries().len()
                    &&& v == old(self).entries()[index as int].1
                    &&& final(self).entries() =~= old(self).entries().update(
                        index as int,
                        (old(self).entries()[index as int].0, value),
                    )
                },
                None => index >= old(self).entries().len() && final(self).entries() == old(
                    self,
                ).entries(),
            },
        decreases *old(self),
    {
        if self.leaf {
            if index < self.keys.len() {
                let prev = self.swap_slot_value(index, value);
                proof {
                    assert(self.entries() =~= old(self).entries().update(
                        index as int,
                        (old(self).entries()[index as int].0, value),
                    ));
                    lemma_sorted_update(
                        old(self).entries(),
                        index as int,
                        (old(self).entries()[index as int].0, value),
                    );
                }
                Some(prev)
            } else {
                None
            }
        } else {
            let n = self.size();
            if index >= n {
                return None;
            }
            let (i, rr, at_sep) = self.find_rank_slot(index);
            proof {
                self.lemma_at(i as int);
            }
            if at_sep {
                let prev = self.swap_slot_value(i, value);
                proof {
                    old(self).lemma_slot_replaced(*self, i as int);
                    lemma_concat3_update(
                        old(self).entries_upto(i as int) + old(
                            self,
                        ).pointers@[i as int].child.entries(),
                        seq![old(self).kv(i as int)],
                        old(self).entries_from(i + 1),
                        0,
                        (old(self).entries()[index as int].0, value),
                    );
                    assert(self.entries() =~= old(self).entries().update(
                        index as int,
                        (old(self).entries()[index as int].0, value),
                    ));
                    lemma_sorted_update(
                        old(self).entries(),
                        index as int,
                        (old(self).entries()[index as int].0, value),
                    );
                }
                Some(prev)
            } else {
                let ghost ch_old = self.pointers@[i as int].child.entries();
                proof {
                    assert(self.pointers@[i as int].child.wf());
                    assert(decreases_to!(*old(self) => *old(self).pointers@[i as int].child));
                }
                let mut p = self.pointers.remove(i);
                let out = p.child.replace_from_index(rr, value);
                self.pointers.insert(i, p);
                proof {
                    lemma_remove_insert(old(self).pointers@, i as int, p);
                    assert(self.pointers@ =~= old(self).pointers@.update(i as int, p));
                    old(self).lemma_child_replaced(*self, i as int);
                    lemma_concat3_update(
                        old(self).entries_upto(i as int),
                        ch_old,
                        old(self).rest_from(i as int),
                        rr as int,
                        (ch_old[rr as int].0, value),
                    );
                    assert(self.entries() =~= old(self).entries().update(
                        index as int,
                        (old(self).entries()[index as int].0, value),
                    ));
                    lemma_sorted_update(
                        old(self).entries(),
                        index as int,
                        (old(self).entries()[index as int].0, value),
                    );
                    assert forall|j: int| 0 <= j < self.pointers@.len() implies (
                    #[trigger] self.pointers@[j]).child.wf() && self.pointers@[j].counter
                        == self.pointers@[j].child.entries().len() by {
                        if j != i {
                            assert(self.pointers@[j] == old(self).pointers@[j]);
                        }
                    }
                }
                out
            }
        }
    }
}

impl<K: TotalOrder, V> crate::IndexTreeMap<K, V> {
    /// Replace the value stored under `key`, returning the one it held.
    /// The stored key and the tree's structure are untouched.
    pub fn replace(&mut self, key: &K, value: V) -> (r: Option<V>)
        requires
            old(self).wf(),
        ensures
            final(self).wf(),
            match r {
                Some(v) => {
                    &&& has_key(old(self)@, *key)
                    &&& v == old(self)@[key_index(old(self)@, *key)].1
                    &&& final(self)@ =~= old(self)@.update(
                        key_index(old(self)@, *key),
                        (old(self)@[key_index(old(self)@, *key)].0, value),
                    )
                },
                None => !has_key(old(self)@, *key) && final(self)@ == old(self)@,
            },
    {
        self.root.replace(key, value)
    }

    /// Replace the value of the entry at rank `index`, when there is one.
    pub fn replace_index(&mut self, index: usize, value: V)
        requires
            old(self).wf(),
        ensures
            final(self).wf(),
            index < old(self)@.len() ==> final(self)@ =~= old(self)@.update(
                index as int,
                (old(self)@[index as int].0, value),
            ),
            index >= old(self)@.len() ==> final(self)@ == old(self)@,
    {
        let _ = self.root.replace_from_index(index, value);
    }
}

} // verus!
