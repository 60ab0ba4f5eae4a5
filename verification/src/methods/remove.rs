//! Removal, with leaf merging, predecessor replacement and root collapse.

use vstd::prelude::*;

use crate::order::TotalOrder;
use crate::seqs::{
    has_key, key_index, lemma_concat3_remove, lemma_remove_insert, lemma_sorted_concat,
    lemma_sorted_remove, sorted,
};
use crate::stc::Node;
use crate::KEY_ARRAY;

verus! {

impl<K: TotalOrder, V> Node<K, V> {
    /// Remove the entry at slot `index` of a leaf.
    pub fn leaf_remove_key(&mut self, index: usize) -> (r: Option<(K, V)>)
        requires
            old(self).wf(),
            old(self).leaf,
            index < old(self).keys@.len(),
        ensures
            final(self).wf(),
            final(self).leaf,
            match r {
                Some(kv) => kv == old(self).entries()[index as int] && final(self).entries() =~= old(
                    self,
                ).entries().remove(index as int),
                None => false,
            },
    {
        let it = self.keys.remove(index);
        proof {
            assert(self.entries() =~= old(self).entries().remove(index as int));
            lemma_sorted_remove(old(self).entries(), index as int);
        }
        Some((it.key, it.value))
    }

    /// After slot `index` was vacated, merge its two flanking leaf edges
    /// into one.  Runs while the node is one edge over its entry count.
    pub fn merge_pointers_from_removed_node(&mut self, index: usize)
        requires
            !old(self).leaf,
            old(self).keys@.len() + 2 == old(self).pointers@.len(),
            index + 1 < old(self).pointers@.len(),
            forall|j: int|
                0 <= j < old(self).pointers@.len() ==> (#[trigger] old(
                    self,
                ).pointers@[j]).child.wf() && old(self).pointers@[j].counter == old(
                    self,
                ).pointers@[j].child.entries().len(),
            old(self).pointers@[index as int].child.leaf,
            old(self).pointers@[index + 1].child.leaf,
            old(self).pointers@[index as int].child.keys@.len() + old(
                self,
            ).pointers@[index + 1].child.keys@.len() < KEY_ARRAY,
            sorted(
                old(self).pointers@[index as int].child.entries() + old(
                    self,
                ).pointers@[index + 1].child.entries(),
            ),
        ensures
            !final(self).leaf,
            final(self).keys@ == old(self).keys@,
            final(self).pointers@.len() == old(self).pointers@.len() - 1,
            forall|j: int|
                0 <= j < index ==> final(self).pointers@[j] == old(self).pointers@[j],
            forall|j: int|
                index < j < final(self).pointers@.len() ==> final(self).pointers@[j] == old(
                    self,
                ).pointers@[j + 1],
            final(self).pointers@[index as int].child.wf(),
            final(self).pointers@[index as int].counter == final(self).pointers@[index
                as int].child.entries().len(),
            final(self).pointers@[index as int].child.entries() =~= old(
                self,
            ).pointers@[index as int].child.entries() + old(
                self,
            ).pointers@[index + 1].child.entries(),
    {
        let mut lp = self.pointers.remove(index);
        let rp = self.pointers.remove(index);
        let mut rchild = rp.child;
        lp.child.keys.append(&mut rchild.keys);
        lp.counter = lp.counter + rp.counter;
        self.pointers.insert(index, lp);
        proof {
            assert(lp.child.entries() =~= old(self).pointers@[index as int].child.entries() + old(
                self,
            ).pointers@[index + 1].child.entries());
            assert forall|j: int| 0 <= j < index implies self.pointers@[j] == old(
                self,
            ).pointers@[j] by {}
            assert forall|j: int| index < j < self.pointers@.len() implies self.pointers@[j] == old(
                self,
            ).pointers@[j + 1] by {}
        }
    }

    /// After slot `index` was vacated, refill it with the in-order
    /// predecessor: the rightmost entry of the left edge's subtree.
    pub fn replace_removed_key(&mut self, index: usize)
        requires
            !old(self).leaf,
            old(self).keys@.len() + 2 == old(self).pointers@.len(),
            index < old(self).pointers@.len(),
            index <= old(self).keys@.len(),
            forall|j: int|
                0 <= j < old(self).pointers@.len() ==> (#[trigger] old(
                    self,
                ).pointers@[j]).child.wf() && old(self).pointers@[j].counter == old(
                    self,
                ).pointers@[j].child.entries().len(),
            old(self).pointers@[index as int].counter > 0,
        ensures
            !final(self).leaf,
            final(self).keys@.len() == old(self).keys@.len() + 1,
            final(self).pointers@.len() == old(self).pointers@.len(),
            forall|j: int|
                0 <= j < final(self).pointers@.len() && j != index ==> final(self).pointers@[j]
                    == old(self).pointers@[j],
            forall|j: int| 0 <= j < index ==> final(self).keys@[j] == old(self).keys@[j],
            forall|j: int|
                index < j < final(self).keys@.len() ==> final(self).keys@[j] == old(
                    self,
                ).keys@[j - 1],
            final(self).pointers@[index as int].child.wf(),
            final(self).pointers@[index as int].counter == final(self).pointers@[index
                as int].child.entries().len(),
            (final(self).keys@[index as int].key, final(self).keys@[index as int].value) == old(
                self,
            ).pointers@[index as int].child.entries().last(),
            final(self).pointers@[index as int].child.entries() =~= old(
                self,
            ).pointers@[index as int].child.entries().drop_last(),
    {
        let mut p = self.pointers.remove(index);
        let out = p.child.take_last_key();
        let it = out.unwrap();
        p.counter = p.counter - 1;
        self.pointers.insert(index, p);
        self.keys.insert(index, it);
        proof {
            lemma_remove_insert(old(self).pointers@, index as int, p);
            assert(self.pointers@ =~= old(self).pointers@.update(index as int, p));
        }
    }

    /// Remove the separator at slot `index` of an internal node and mend
    /// the node: merge small flanking leaves, drop an exhausted left
    /// edge, or pull up the in-order predecessor.
    #[verifier::rlimit(60)]
    pub fn node_remove_key(&mut self, index: usize) -> (r: Option<(K, V)>)
        requires
            old(self).wf(),
            !old(self).leaf,
            index < old(self).keys@.len(),
        ensures
            final(self).wf(),
            match r {
                Some(kv) => ({
                    let pos = old(self).entries_upto(index as int).len() + old(
                        self,
                    ).pointers@[index as int].counter;
                    &&& kv == old(self).entries()[pos as int]
                    &&& final(self).entries() =~= old(self).entries().remove(pos as int)
                }),
                None => false,
            },
    {
        proof {
            old(self).lemma_at(index as int);
            old(self).lemma_at(index + 1);
            old(self).lemma_split_at_child(index as int);
        }
        let ghost pos = old(self).entries_upto(index as int).len() + old(self).pointers@[index
            as int].counter;
        let it = self.keys.remove(index);
        let merge_ok = self.pointers[index].child.leaf && self.pointers[index + 1].child.leaf
            && self.pointers[index].child.keys.len() + self.pointers[index + 1].child.keys.len()
            < KEY_ARRAY;
        if merge_ok {
            proof {
                let s = old(self).entries();
                let lch = old(self).pointers@[index as int].child.entries();
                let rch = old(self).pointers@[index + 1].child.entries();
                let loff = old(self).entries_upto(index as int).len() as int;
                let roff = old(self).entries_upto(index + 1).len() as int;
                assert forall|a: int, b: int|
                    0 <= a < lch.len() && 0 <= b < rch.len() implies crate::order::key_lt(
                    (#[trigger] lch[a]).0,
                    (#[trigger] rch[b]).0,
                ) by {
                    assert(lch[a] == s[loff + a]);
                    assert(rch[b] == s[roff + b]);
                }
                crate::seqs::lemma_sorted_subrange(s, loff, loff + lch.len() as int);
                crate::seqs::lemma_sorted_subrange(s, roff, roff + rch.len() as int);
                lemma_sorted_concat(lch, rch);
            }
            self.merge_pointers_from_removed_node(index);
            proof {
                old(self).lemma_remove_slot(*self, index as int);
                lemma_concat3_remove(
                    old(self).entries_upto(index as int) + old(
                        self,
                    ).pointers@[index as int].child.entries(),
                    seq![old(self).kv(index as int)],
                    old(self).entries_from(index + 1),
                    0,
                );
                assert(old(self).entries_from(index + 1) == old(
                    self,
                ).pointers@[index + 1].child.entries() + old(self).rest_from(index + 1));
                assert(self.entries() =~= old(self).entries().remove(pos as int));
                lemma_sorted_remove(old(self).entries(), pos as int);
                assert forall|j: int| 0 <= j < self.pointers@.len() implies (
                #[trigger] self.pointers@[j]).child.wf() && self.pointers@[j].counter
                    == self.pointers@[j].child.entries().len() by {
                    if j < index {
                        assert(self.pointers@[j] == old(self).pointers@[j]);
                    } else if j > index {
                        assert(self.pointers@[j] == old(self).pointers@[j + 1]);
                    }
                }
            }
        } else if self.pointers[index].counter == 0 {
            let _p = self.pointers.remove(index);
            proof {
                old(self).lemma_drop_slot_edge(*self, index as int);
                assert(old(self).pointers@[index as int].child.entries().len() == 0);
                lemma_concat3_remove(
                    old(self).entries_upto(index as int) + old(
                        self,
                    ).pointers@[index as int].child.entries(),
                    seq![old(self).kv(index as int)],
                    old(self).entries_from(index + 1),
                    0,
                );
                assert(self.entries() =~= old(self).entries().remove(pos as int));
                lemma_sorted_remove(old(self).entries(), pos as int);
                assert forall|j: int| 0 <= j < self.pointers@.len() implies (
                #[trigger] self.pointers@[j]).child.wf() && self.pointers@[j].counter
                    == self.pointers@[j].child.entries().len() by {
                    if j < index {
                        assert(self.pointers@[j] == old(self).pointers@[j]);
                    } else {
                        assert(self.pointers@[j] == old(self).pointers@[j + 1]);
                    }
                }
            }
        } else {
            self.replace_removed_key(index);
            proof {
                old(self).lemma_slot_replaced(*self, index as int);
                let lch = old(self).pointers@[index as int].child.entries();
                assert(lch.drop_last() + seq![lch.last()] =~= lch);
                lemma_concat3_remove(
                    old(self).entries_upto(index as int) + lch,
                    seq![old(self).kv(index as int)],
                    old(self).entries_from(index + 1),
                    0,
                );
                assert(self.entries() =~= old(self).entries().remove(pos as int));
                lemma_sorted_remove(old(self).entries(), pos as int);
                assert forall|j: int| 0 <= j < self.pointers@.len() implies (
                #[trigger] self.pointers@[j]).child.wf() && self.pointers@[j].counter
                    == self.pointers@[j].child.entries().len() by {
                    if j != index {
                        assert(self.pointers@[j] == old(self).pointers@[j]);
                    }
                }
            }
        }
        if self.keys.len() == 0 {
            proof {
                assert(self.pointers@.len() == 1);
                assert(self.pointers@[0].child.wf());
            }
            let ghost before = *self;
            self.fill_empty_root();
            proof {
                assert(before.entries_from(0) == before.pointers@[0].child.entries());
                assert(self.entries() == before.entries());
            }
        }
        Some((it.key, it.value))
    }

    /// Remove the entry whose key matches `key` from this subtree.
    pub fn remove(&mut self, key: &K) -> (r: Option<(K, V)>)
        requires
            old(self).wf(),
        ensures
            final(self).wf(),
            match r {
                Some(kv) => {
                    &&& has_key(old(self).entries(), *key)
                    &&& kv == old(self).entries()[key_index(old(self).entries(), *key)]
                    &&& final(self).entries() =~= old(self).entries().remove(
                        key_index(old(self).entries(), *key),
                    )
                },
                None => !has_key(old(self).entries(), *key) && final(self).entries() == old(
                    self,
                ).entries(),
            },
        decreases *old(self),
    {
        let (index, eq) = self.find_slot(key);
        if self.leaf {
            if eq {
                proof {
                    self.lemma_locate_leaf_eq(*key, index as int);
                }
                self.leaf_remove_key(index)
            } else {
                proof {
                    self.lemma_locate_leaf(*key, index as int);
                }
                None
            }
        } else {
            if eq {
                proof {
                    self.lemma_locate_eq(*key, index as int);
                }
                self.node_remove_key(index)
            } else {
                let ghost ch_old = self.pointers@[index as int].child.entries();
                proof {
                    self.lemma_locate(*key, index as int);
                    self.lemma_at(index as int);
                    self.lemma_split_at_child(index as int);
                    assert(self.pointers@[index as int].child.wf());
                    assert(decreases_to!(*old(self) => *old(self).pointers@[index as int].child));
                }
                let mut p = self.pointers.remove(index);
                let out = p.child.remove(key);
                if out.is_some() {
                    p.counter = p.counter - 1;
                }
                self.pointers.insert(index, p);
                proof {
                    lemma_remove_insert(old(self).pointers@, index as int, p);
                    assert(self.pointers@ =~= old(self).pointers@.update(index as int, p));
                    old(self).lemma_child_replaced(*self, index as int);
                    if out is Some {
                        let kic = key_index(ch_old, *key);
                        lemma_concat3_remove(
                            old(self).entries_upto(index as int),
                            ch_old,
                            old(self).rest_from(index as int),
                            kic,
                        );
                        assert(self.entries() =~= old(self).entries().remove(
                            key_index(old(self).entries(), *key),
                        ));
                        lemma_sorted_remove(
                            old(self).entries(),
                            key_index(old(self).entries(), *key),
                        );
                    } else {
                        assert(self.entries() =~= old(self).entries());
                    }
                    assert forall|j: int| 0 <= j < self.pointers@.len() implies (
                    #[trigger] self.pointers@[j]).child.wf() && self.pointers@[j].counter
                        == self.pointers@[j].child.entries().len() by {
                        if j != index {
                            assert(self.pointers@[j] == old(self).pointers@[j]);
                        }
                    }
                }
                out
            }
        }
    }

    /// Locate the rank `index` within this internal node: either it lands
    /// inside child `i` with `rr` to spare, or exactly on separator `i`.
    pub fn find_rank_slot(&self, index: usize) -> (r: (usize, usize, bool))
        requires
            self.wf(),
            !self.leaf,
            index < self.entries().len(),
        ensures
            ({
                let (i, rr, at_sep) = r;
                &&& i <= self.keys@.len()
                &&& rr == index - self.entries_upto(i as int).len()
                &&& at_sep ==> i < self.keys@.len() && rr == self.pointers@[i as int].counter
                &&& !at_sep ==> i < self.pointers@.len() && rr < self.pointers@[i as int].counter
            }),
    {
        let mut i: usize = 0;
        let mut rr: usize = index;
        while i < self.keys.len()
            invariant
                self.wf(),
                !self.leaf,
                0 <= i <= self.keys@.len(),
                rr == index - self.entries_upto(i as int).len(),
                self.entries_upto(i as int).len() <= index,
            decreases self.keys@.len() - i,
        {
            proof {
                self.lemma_at(i as int);
            }
            let c = self.pointers[i].counter;
            if rr < c {
                return (i, rr, false);
            }
            if rr == c {
                return (i, rr, true);
            }
            rr = rr - c - 1;
            i = i + 1;
        }
        proof {
            self.lemma_at(i as int);
        }
        (i, rr, false)
    }

    /// Remove the entry at rank `index` of this subtree.
    pub fn remove_index(&mut self, index: usize) -> (r: Option<(K, V)>)
        requires
            old(self).wf(),
        ensures
            final(self).wf(),
            match r {
                Some(kv) => {
                    &&& index < old(self).entries().len()
                    &&& kv == old(self).entries()[index as int]
                    &&& final(self).entries() =~= old(self).entries().remove(index as int)
                },
                None => index >= old(self).entries().len() && final(self).entries() == old(
                    self,
                ).entries(),
            },
        decreases *old(self),
    {
        if self.leaf {
            if index < self.keys.len() {
                self.leaf_remove_key(index)
            } else {
                None
            }
        } else {
            let n = self.size();
            if index >= n {
                return None;
            }
            let (i, rr, at_sep) = self.find_rank_slot(index);
            if at_sep {
                self.node_remove_key(i)
            } else {
                let ghost ch_old = self.pointers@[i as int].child.entries();
                proof {
                    self.lemma_at(i as int);
                    self.lemma_split_at_child(i as int);
                    assert(self.pointers@[i as int].child.wf());
                    assert(decreases_to!(*old(self) => *old(self).pointers@[i as int].child));
                }
                let mut p = self.pointers.remove(i);
                let out = p.child.remove_index(rr);
                p.counter = p.counter - 1;
                self.pointers.insert(i, p);
                proof {
                    lemma_remove_insert(old(self).pointers@, i as int, p);
                    assert(self.pointers@ =~= old(self).pointers@.update(i as int, p));
                    old(self).lemma_child_replaced(*self, i as int);
                    lemma_concat3_remove(
                        old(self).entries_upto(i as int),
                        ch_old,
                        old(self).rest_from(i as int),
                        rr as int,
                    );
                    assert(self.entries() =~= old(self).entries().remove(index as int));
                    lemma_sorted_remove(old(self).entries(), index as int);
                    assert forall|j: int| 0 <= j < self.pointers@.len() implies (
                    #[trigger] self.pointers@[j]).child.wf() && self.pointers@[j].counter
                        == self.pointers@[j].child.entries().len() by {
                        if j != i {
                            assert(self.pointers@[j] == old(self).pointers@[j]);
                        }
                    }
                }
                out
            }
        }
    }
}

impl<K: TotalOrder, V> crate::IndexTreeMap<K, V> {
    /// Remove the entry whose key matches `key`, returning it.
    pub fn remove(&mut self, key: &K) -> (r: Option<(K, V)>)
        requires
            old(self).wf(),
        ensures
            final(self).wf(),
            match r {
                Some(kv) => {
                    &&& has_key(old(self)@, *key)
                    &&& kv == old(self)@[key_index(old(self)@, *key)]
                    &&& final(self)@ =~= old(self)@.remove(key_index(old(self)@, *key))
                },
                None => !has_key(old(self)@, *key) && final(self)@ == old(self)@,
            },
    {
        match self.root.remove(key) {
            None => None,
            Some(item) => {
                self.size = self.size - 1;
                Some(item)
            },
        }
    }

    /// Remove the entry at rank `index`, returning it.
    pub fn remove_from_index(&mut self, index: usize) -> (r: Option<(K, V)>)
        requires
            old(self).wf(),
        ensures
            final(self).wf(),
            match r {
                Some(kv) => {
                    &&& index < old(self)@.len()
                    &&& kv == old(self)@[index as int]
                    &&& final(self)@ =~= old(self)@.remove(index as int)
                },
                None => index >= old(self)@.len() && final(self)@ == old(self)@,
            },
    {
        match self.root.remove_index(index) {
            None => None,
            Some(item) => {
                self.size = self.size - 1;
                Some(item)
            },
        }
    }
}

} // verus!
