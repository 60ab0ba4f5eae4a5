//! Reading the tree: lookup by key, lookup by rank, and the rank of a key.

use vstd::prelude::*;

use crate::order::TotalOrder;
use crate::seqs::{has_key, key_index, lemma_concat3_update, lemma_sorted_update};
use crate::stc::Node;

verus! {

impl<K: TotalOrder, V> Node<K, V> {
    /// The number of entries that sit before edge `i`, read off the edge
    /// counters.
    pub fn prefix_size(&self, i: usize) -> (r: usize)
        requires
            self.wf(),
            !self.leaf,
            i <= self.keys@.len(),
        ensures
            r == self.entries_upto(i as int).len(),
    {
        let mut j: usize = 0;
        let mut acc: usize = 0;
        while j < i
            invariant
                self.wf(),
                !self.leaf,
                0 <= j <= i <= self.keys@.len(),
                acc == self.entries_upto(j as int).len(),
            decreases i - j,
        {
            proof {
                self.lemma_at(j as int);
            }
            acc = acc + self.pointers[j].counter + 1;
            j = j + 1;
        }
        acc
    }

    /// Look up `key` in this subtree; return the stored key and value.
    pub fn get(&self, key: &K) -> (r: Option<(&K, &V)>)
        requires
            self.wf(),
        ensures
            match r {
                Some(p) => has_key(self.entries(), *key) && *p.0 == self.entries()[key_index(
                    self.entries(),
                    *key,
                )].0 && *p.1 == self.entries()[key_index(self.entries(), *key)].1,
                None => !has_key(self.entries(), *key),
            },
        decreases self,
    {
        let (i, eq) = self.find_slot(key);
        if eq {
            proof {
                if self.leaf {
                    self.lemma_locate_leaf_eq(*key, i as int);
                } else {
                    self.lemma_locate_eq(*key, i as int);
                }
            }
            Some((&self.keys[i].key, &self.keys[i].value))
        } else if self.leaf {
            proof {
                self.lemma_locate_leaf(*key, i as int);
            }
            None
        } else {
            proof {
                self.lemma_locate(*key, i as int);
            }
            self.pointers[i].child.get(key)
        }
    }

    /// Look up `key` and hand out a mutable reference to its value.  The
    /// final model carries whatever the caller writes through it.
    #[verifier::rlimit(60)]
    #[verifier::spinoff_prover]
    pub fn get_mut(&mut self, key: &K) -> (r: Option<&mut V>)
        requires
            old(self).wf(),
        ensures
            match r {
                Some(v) => {
                    &&& has_key(old(self).entries(), *key)
                    &&& *v == old(self).entries()[key_index(old(self).entries(), *key)].1
                    &&& final(self).wf()
                    &&& final(self).entries() == old(self).entries().update(
                        key_index(old(self).entries(), *key),
                        (
                            old(self).entries()[key_index(old(self).entries(), *key)].0,
                            *final(v),
                        ),
                    )
                },
                None => {
                    &&& !has_key(old(self).entries(), *key)
                    &&& final(self).wf()
                    &&& final(self).entries() == old(self).entries()
                },
            },
        decreases *old(self),
    {
        let (index, eq) = self.find_slot(key);
        if eq {
            let ghost ki = key_index(old(self).entries(), *key);
            proof {
                if self.leaf {
                    self.lemma_locate_leaf_eq(*key, index as int);
                } else {
                    self.lemma_locate_eq(*key, index as int);
                    self.lemma_at(index as int);
                }
                self.lemma_value_patch(index as int, ki);
            }
            let v = &mut self.keys[index].value;
            Some(v)
        } else if self.leaf {
            proof {
                self.lemma_locate_leaf(*key, index as int);
            }
            None
        } else {
            let ghost ch_old = self.pointers@[index as int].child.entries();
            let ghost kic = key_index(ch_old, *key);
            let ghost ki = key_index(old(self).entries(), *key);
            proof {
                self.lemma_locate(*key, index as int);
                self.lemma_at(index as int);
                assert(self.pointers@[index as int].child.wf());
                if has_key(ch_old, *key) {
                    self.lemma_child_patch_update(index as int, kic, ki);
                }
                self.lemma_child_patch_same(index as int);
                assert(decreases_to!(*old(self) => *old(self).pointers@[index as int].child));
            }
            self.pointers[index].child.get_mut(key)
        }
    }

    /// For every way of rewriting the value of slot `index`, the node
    /// stays well-formed and its model is the pointwise update at `pos`.
    /// Stated over all such nodes, so that it can be applied to the state
    /// left behind by a caller that still holds a reference into it.
    pub proof fn lemma_value_patch(self, index: int, pos: int)
        requires
            self.wf(),
            0 <= index < self.keys@.len(),
            0 <= pos < self.entries().len(),
            self.entries()[pos] == self.kv(index),
            !self.leaf ==> pos == self.entries_upto(index).len() + self.pointers@[index].counter,
            self.leaf ==> pos == index,
        ensures
            forall|nd: Node<K, V>|
                (nd.leaf == self.leaf && nd.pointers@ == self.pointers@ && nd.keys@.len()
                    == self.keys@.len() && (forall|j: int|
                    0 <= j < self.keys@.len() && j != index ==> nd.keys@[j] == self.keys@[j])
                    && nd.keys@[index].key == self.keys@[index].key) ==> #[trigger] nd.wf()
                    && nd.entries() == self.entries().update(
                    pos,
                    (self.entries()[pos].0, nd.keys@[index].value),
                ),
    {
        assert forall|nd: Node<K, V>|
            (nd.leaf == self.leaf && nd.pointers@ == self.pointers@ && nd.keys@.len()
                == self.keys@.len() && (forall|j: int|
                0 <= j < self.keys@.len() && j != index ==> nd.keys@[j] == self.keys@[j])
                && nd.keys@[index].key == self.keys@[index].key) implies #[trigger] nd.wf()
            && nd.entries() == self.entries().update(
            pos,
            (self.entries()[pos].0, nd.keys@[index].value),
        ) by {
            let w = nd.keys@[index].value;
            if self.leaf {
                assert(nd.entries() =~= self.entries().update(pos, (self.entries()[pos].0, w)));
            } else {
                self.lemma_slot_replaced(nd, index);
                lemma_concat3_update(
                    self.entries_upto(index) + self.pointers@[index].child.entries(),
                    seq![self.kv(index)],
                    self.entries_from(index + 1),
                    0,
                    (self.entries()[pos].0, w),
                );
                assert(nd.entries() =~= self.entries().update(pos, (self.entries()[pos].0, w)));
            }
            lemma_sorted_update(self.entries(), pos, (self.entries()[pos].0, w));
        }
    }

    /// Every node that differs from this one only in child `index`, whose
    /// new subtree rewrote the value at position `kic` of its block, is
    /// well-formed with the pointwise update at `pos` as its model.
    pub proof fn lemma_child_patch_update(self, index: int, kic: int, pos: int)
        requires
            self.wf(),
            !self.leaf,
            0 <= index < self.pointers@.len(),
            0 <= kic < self.pointers@[index].child.entries().len(),
            0 <= pos < self.entries().len(),
            pos == self.entries_upto(index).len() + kic,
            self.entries()[pos] == self.pointers@[index].child.entries()[kic],
        ensures
            forall|nd: Node<K, V>|
                (nd.leaf == self.leaf && nd.keys@ == self.keys@ && nd.pointers@.len()
                    == self.pointers@.len() && (forall|j: int|
                    0 <= j < self.pointers@.len() && j != index ==> nd.pointers@[j]
                        == self.pointers@[j]) && nd.pointers@[index].counter
                    == self.pointers@[index].counter && nd.pointers@[index].child.wf()
                    && nd.pointers@[index].child.entries()
                    == self.pointers@[index].child.entries().update(
                    kic,
                    (
                        self.pointers@[index].child.entries()[kic].0,
                        nd.pointers@[index].child.entries()[kic].1,
                    ),
                )) ==> #[trigger] nd.wf() && nd.entries() == self.entries().update(
                    pos,
                    (self.entries()[pos].0, nd.pointers@[index].child.entries()[kic].1),
                ),
    {
        let ch = self.pointers@[index].child.entries();
        assert forall|nd: Node<K, V>|
            (nd.leaf == self.leaf && nd.keys@ == self.keys@ && nd.pointers@.len()
                == self.pointers@.len() && (forall|j: int|
                0 <= j < self.pointers@.len() && j != index ==> nd.pointers@[j]
                    == self.pointers@[j]) && nd.pointers@[index].counter
                == self.pointers@[index].counter && nd.pointers@[index].child.wf()
                && nd.pointers@[index].child.entries() == ch.update(
                kic,
                (ch[kic].0, nd.pointers@[index].child.entries()[kic].1),
            )) implies #[trigger] nd.wf() && nd.entries() == self.entries().update(
            pos,
            (self.entries()[pos].0, nd.pointers@[index].child.entries()[kic].1),
        ) by {
            let w = nd.pointers@[index].child.entries()[kic].1;
            self.lemma_child_replaced(nd, index);
            lemma_concat3_update(
                self.entries_upto(index),
                ch,
                self.rest_from(index),
                kic,
                (ch[kic].0, w),
            );
            assert(nd.entries() =~= self.entries().update(pos, (self.entries()[pos].0, w)));
            lemma_sorted_update(self.entries(), pos, (self.entries()[pos].0, w));
            assert forall|j: int| 0 <= j < nd.pointers@.len() implies (
            #[trigger] nd.pointers@[j]).child.wf() && nd.pointers@[j].counter
                == nd.pointers@[j].child.entries().len() by {
                if j != index {
                    assert(nd.pointers@[j] == self.pointers@[j]);
                }
            }
        }
    }

    /// Every node that differs from this one only in child `index`, whose
    /// subtree kept the same model, is well-formed with the same model.
    #[verifier::rlimit(60)]
    #[verifier::spinoff_prover]
    pub proof fn lemma_child_patch_same(self, index: int)
        requires
            self.wf(),
            !self.leaf,
            0 <= index < self.pointers@.len(),
        ensures
            forall|nd: Node<K, V>|
                (nd.leaf == self.leaf && nd.keys@ == self.keys@ && nd.pointers@.len()
                    == self.pointers@.len() && (forall|j: int|
                    0 <= j < self.pointers@.len() && j != index ==> nd.pointers@[j]
                        == self.pointers@[j]) && nd.pointers@[index].counter
                    == self.pointers@[index].counter && nd.pointers@[index].child.wf()
                    && nd.pointers@[index].child.entries()
                    == self.pointers@[index].child.entries()) ==> #[trigger] nd.wf()
                    && nd.entries() == self.entries(),
    {
        assert forall|nd: Node<K, V>|
            (nd.leaf == self.leaf && nd.keys@ == self.keys@ && nd.pointers@.len()
                == self.pointers@.len() && (forall|j: int|
                0 <= j < self.pointers@.len() && j != index ==> nd.pointers@[j]
                    == self.pointers@[j]) && nd.pointers@[index].counter
                == self.pointers@[index].counter && nd.pointers@[index].child.wf()
                && nd.pointers@[index].child.entries()
                == self.pointers@[index].child.entries()) implies #[trigger] nd.wf()
            && nd.entries() == self.entries() by {
            self.lemma_child_replaced(nd, index);
            assert(nd.entries() =~= self.entries());
            assert forall|j: int| 0 <= j < nd.pointers@.len() implies (
            #[trigger] nd.pointers@[j]).child.wf() && nd.pointers@[j].counter
                == nd.pointers@[j].child.entries().len() by {
                if j != index {
                    assert(nd.pointers@[j] == self.pointers@[j]);
                }
            }
        }
    }

    /// Hand out a mutable reference to the value at rank `index`.
    #[verifier::rlimit(60)]
    #[verifier::spinoff_prover]
    pub fn get_mut_from_index(&mut self, index: usize) -> (r: Option<&mut V>)
        requires
            old(self).wf(),
        ensures
            match r {
                Some(v) => {
                    &&& index < old(self).entries().len()
                    &&& *v == old(self).entries()[index as int].1
                    &&& final(self).wf()
                    &&& final(self).entries() == old(self).entries().update(
                        index as int,
                        (old(self).entries()[index as int].0, *final(v)),
                    )
                },
                None => {
                    &&& index >= old(self).entries().len()
                    &&& final(self).wf()
                    &&& final(self).entries() == old(self).entries()
                },
            },
        decreases *old(self),
    {
        if self.leaf {
            if index < self.keys.len() {
                proof {
                    self.lemma_value_patch(index as int, index as int);
                }
                let v = &mut self.keys[index].value;
                Some(v)
            } else {
                None
            }
        } else {
            let n = self.size();
            if index >= n {
                return None;
            }
            let (i, rr, at_sep) = self.find_rank_slot(index);
            proof {
                self.lemma_at(i as int);
            }
            if at_sep {
                proof {
                    self.lemma_value_patch(i as int, index as int);
                }
                let v = &mut self.keys[i].value;
                Some(v)
            } else {
                proof {
                    assert(self.pointers@[i as int].child.wf());
                    self.lemma_child_patch_update(i as int, rr as int, index as int);
                    self.lemma_child_patch_same(i as int);
                    assert(decreases_to!(*old(self) => *old(self).pointers@[i as int].child));
                }
                self.pointers[i].child.get_mut_from_index(rr)
            }
        }
    }

    /// The rank of `key` in this subtree, offset by `acc`.
    pub fn get_index_from_key(&self, key: &K, acc: usize) -> (r: Option<usize>)
        requires
            self.wf(),
            acc + self.entries().len() <= usize::MAX,
        ensures
            match r {
                Some(x) => has_key(self.entries(), *key) && x == acc + key_index(
                    self.entries(),
                    *key,
                ),
                None => !has_key(self.entries(), *key),
            },
        decreases self,
    {
        let (i, eq) = self.find_slot(key);
        if eq {
            if self.leaf {
                proof {
                    self.lemma_locate_leaf_eq(*key, i as int);
                }
                Some(acc + i)
            } else {
                proof {
                    self.lemma_locate_eq(*key, i as int);
                    self.lemma_at(i as int);
                }
                let off = self.prefix_size(i);
                Some(acc + off + self.pointers[i].counter)
            }
        } else if self.leaf {
            proof {
                self.lemma_locate_leaf(*key, i as int);
            }
            None
        } else {
            proof {
                self.lemma_locate(*key, i as int);
                self.lemma_at(i as int);
            }
            let off = self.prefix_size(i);
            self.pointers[i].child.get_index_from_key(key, acc + off)
        }
    }

    /// The entry at rank `index` of this subtree.
    pub fn get_from_index(&self, index: usize) -> (r: Option<(&K, &V)>)
        requires
            self.wf(),
        ensures
            match r {
                Some(p) => index < self.entries().len() && *p.0 == self.entries()[index as int].0
                    && *p.1 == self.entries()[index as int].1,
                None => index >= self.entries().len(),
            },
        decreases self,
    {
        if self.leaf {
            if index < self.keys.len() {
                Some((&self.keys[index].key, &self.keys[index].value))
            } else {
                None
            }
        } else {
            let mut i: usize = 0;
            let mut rr: usize = index;
            while i < self.keys.len()
                invariant
                    self.wf(),
                    !self.leaf,
                    0 <= i <= self.keys@.len(),
                    rr == index - self.entries_upto(i as int).len(),
                    self.entries_upto(i as int).len() <= index,
                decreases self.keys@.len() - i,
            {
                let c = self.pointers[i].counter;
                proof {
                    self.lemma_at(i as int);
                }
                if rr < c {
                    return self.pointers[i].child.get_from_index(rr);
                }
                if rr == c {
                    return Some((&self.keys[i].key, &self.keys[i].value));
                }
                rr = rr - c - 1;
                i = i + 1;
            }
            proof {
                self.lemma_at(i as int);
            }
            self.pointers[i].child.get_from_index(rr)
        }
    }
}

} // verus!
