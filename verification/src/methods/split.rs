//! Splitting the container in two, at a key or at a rank.  The right part
//! is carved out of the spine and handed back as a fresh subtree.

use vstd::prelude::*;

use crate::order::TotalOrder;
use crate::seqs::{bound, lemma_bound_exists, lemma_sorted_subrange};
use crate::stc::{Node, Pointer};

verus! {

impl<K: TotalOrder, V> Node<K, V> {
    /// Assemble the two halves of a split of this node at slot `i`.  The
    /// caller has already taken edge `i` out and cut its subtree into a
    /// left part `p` and a right part `sub`.  Slots up to `i` and `p`
    /// stay here; the separator of slot `i`, `sub` and the later slots
    /// move into the returned right tree.
    #[verifier::rlimit(60)]
    pub fn split_at_index(
        &mut self,
        Ghost(orig): Ghost<Node<K, V>>,
        i: usize,
        p: Pointer<K, V>,
        sub: Pointer<K, V>,
    ) -> (r: Pointer<K, V>)
        requires
            orig.wf(),
            !orig.leaf,
            0 <= i < orig.keys@.len(),
            old(self).keys@ == orig.keys@,
            old(self).leaf == false,
            old(self).pointers@ == orig.pointers@.remove(i as int),
            p.child.wf(),
            sub.child.wf(),
            p.counter == p.child.entries().len(),
            sub.counter == sub.child.entries().len(),
            p.counter <= orig.pointers@[i as int].counter,
            p.child.entries() == orig.pointers@[i as int].child.entries().take(p.counter as int),
            sub.child.entries() == orig.pointers@[i as int].child.entries().skip(
                p.counter as int,
            ),
        ensures
            final(self).wf(),
            r.child.wf(),
            r.counter == r.child.entries().len(),
            final(self).entries() =~= orig.entries().take(
                orig.entries_upto(i as int).len() + p.counter,
            ),
            r.child.entries() =~= orig.entries().skip(
                orig.entries_upto(i as int).len() + p.counter,
            ),
    {
        proof {
            orig.lemma_at(i as int);
            orig.lemma_split_at_child(i as int);
        }
        let ghost cut = orig.entries_upto(i as int).len() + p.counter;
        let ghost ch = orig.pointers@[i as int].child.entries();
        let rkeys = self.keys.split_off(i);
        let mut rtail = self.pointers.split_off(i);
        let ghost rtail0 = rtail@;
        let mut rptrs: Vec<Pointer<K, V>> = Vec::new();
        rptrs.push(sub);
        rptrs.append(&mut rtail);
        let right = Node { keys: rkeys, pointers: rptrs, leaf: false };
        self.pointers.push(p);
        proof {
            // the left half
            assert(self.keys@ =~= orig.keys@.take(i as int));
            assert(self.pointers@.len() == i + 1);
            assert forall|j: int| 0 <= j < i implies self.pointers@[j] == orig.pointers@[j] by {}
            assert(self.pointers@[i as int] == p);
            self.lemma_decompose(i as int);
            orig.lemma_upto_congruence(*self, i as int);
            assert(self.entries_from(i as int) == p.child.entries());
            assert(self.entries() =~= orig.entries_upto(i as int) + ch.take(p.counter as int));
            assert(orig.entries() =~= orig.entries_upto(i as int) + ch + orig.rest_from(i as int));
            assert(self.entries() =~= orig.entries().take(cut as int));
            lemma_sorted_subrange(orig.entries(), 0, cut as int);
            // the right half
            assert(right.keys@ =~= orig.keys@.skip(i as int));
            assert(right.pointers@.len() + i == orig.pointers@.len());
            assert forall|jj: int|
                i + 1 <= jj < orig.pointers@.len() implies (#[trigger] right.pointers@[jj
                - i]).child == orig.pointers@[jj].child by {
                assert(right.pointers@[jj - i] == rtail0[jj - i - 1]);
                assert(rtail0[jj - i - 1] == orig.pointers@.remove(i as int)[jj - 1]);
                assert(orig.pointers@.remove(i as int)[jj - 1] == orig.pointers@[jj]);
            }
            orig.lemma_suffix_node_from(right, i as int, i + 1);
            assert(right.entries_from(0) == right.pointers@[0].child.entries() + seq![
                right.kv(0),
            ] + right.entries_from(1));
            assert(right.kv(0) == orig.kv(i as int));
            assert(orig.rest_from(i as int) == seq![orig.kv(i as int)] + orig.entries_from(i + 1));
            assert(right.entries() =~= orig.entries().skip(cut as int));
            lemma_sorted_subrange(orig.entries(), cut as int, orig.entries().len() as int);
            assert forall|j: int| 0 <= j < right.pointers@.len() implies (
            #[trigger] right.pointers@[j]).child.wf() && right.pointers@[j].counter
                == right.pointers@[j].child.entries().len() by {
                if j == 0 {
                } else {
                    assert(right.pointers@[j] == orig.pointers@[j + i]);
                }
            }
            assert(right.wf());
            assert forall|j: int| 0 <= j < self.pointers@.len() implies (
            #[trigger] self.pointers@[j]).child.wf() && self.pointers@[j].counter
                == self.pointers@[j].child.entries().len() by {
                if j < i {
                    assert(self.pointers@[j] == orig.pointers@[j]);
                }
            }
        }
        let counter = right.size();
        if self.keys.len() == 0 {
            self.fill_empty_root();
        }
        Pointer { child: Box::new(right), counter }
    }

    /// Split this subtree at rank `index`: ranks below it stay, ranks
    /// from it on move into the returned right subtree.
    #[verifier::rlimit(60)]
    pub fn split_off_at_index(&mut self, index: usize) -> (r: Pointer<K, V>)
        requires
            old(self).wf(),
            index <= old(self).entries().len(),
        ensures
            final(self).wf(),
            r.child.wf(),
            r.counter == r.child.entries().len(),
            final(self).entries() =~= old(self).entries().take(index as int),
            r.child.entries() =~= old(self).entries().skip(index as int),
        decreases *old(self),
    {
        if self.leaf {
            let rkeys = self.keys.split_off(index);
            let counter = rkeys.len();
            let right = Node { keys: rkeys, pointers: Vec::new(), leaf: true };
            proof {
                assert(self.entries() =~= old(self).entries().take(index as int));
                assert(right.entries() =~= old(self).entries().skip(index as int));
                lemma_sorted_subrange(old(self).entries(), 0, index as int);
                lemma_sorted_subrange(
                    old(self).entries(),
                    index as int,
                    old(self).entries().len() as int,
                );
            }
            Pointer { child: Box::new(right), counter }
        } else {
            let n = self.size();
            if index == n {
                proof {
                    assert(old(self).entries().take(index as int) =~= old(self).entries());
                    assert(old(self).entries().skip(index as int) =~= Seq::<(K, V)>::empty());
                }
                return Pointer { child: Node::new(), counter: 0 };
            }
            let (i, rr, at_sep) = self.find_rank_slot(index);
            proof {
                self.lemma_at(i as int);
                assert(self.pointers@[i as int].child.wf());
            }
            let ghost orig = *self;
            if at_sep {
                let p = self.pointers.remove(i);
                let empty: Pointer<K, V> = Pointer { child: Node::new(), counter: 0 };
                proof {
                    assert(p.child.entries().take(p.counter as int) =~= p.child.entries());
                    assert(p.child.entries().skip(p.counter as int) =~= Seq::<(K, V)>::empty());
                }
                self.split_at_index(Ghost(orig), i, p, empty)
            } else if i == self.keys.len() {
                proof {
                    assert(decreases_to!(*old(self) => *old(self).pointers@[i as int].child));
                    old(self).lemma_split_at_child(i as int);
                }
                let mut p = self.pointers.remove(i);
                let sub = p.child.split_off_at_index(rr);
                p.counter = p.counter - sub.counter;
                self.pointers.push(p);
                proof {
                    assert(self.pointers@ =~= old(self).pointers@.update(i as int, p));
                    old(self).lemma_child_replaced(*self, i as int);
                    assert(self.entries() =~= old(self).entries().take(index as int));
                    lemma_sorted_subrange(old(self).entries(), 0, index as int);
                    lemma_sorted_subrange(
                        old(self).entries(),
                        index as int,
                        old(self).entries().len() as int,
                    );
                    assert(sub.child.entries() =~= old(self).entries().skip(index as int));
                    assert forall|j: int| 0 <= j < self.pointers@.len() implies (
                    #[trigger] self.pointers@[j]).child.wf() && self.pointers@[j].counter
                        == self.pointers@[j].child.entries().len() by {
                        if j != i {
                            assert(self.pointers@[j] == old(self).pointers@[j]);
                        }
                    }
                }
                sub
            } else {
                proof {
                    assert(decreases_to!(*old(self) => *old(self).pointers@[i as int].child));
                }
                let mut p = self.pointers.remove(i);
                let sub = p.child.split_off_at_index(rr);
                p.counter = p.counter - sub.counter;
                self.split_at_index(Ghost(orig), i, p, sub)
            }
        }
    }

    /// Split this subtree at `key`: entries with keys below it stay,
    /// entries with keys at or above it move into the returned subtree.
    #[verifier::rlimit(60)]
    pub fn split_off(&mut self, key: &K) -> (r: Pointer<K, V>)
        requires
            old(self).wf(),
        ensures
            final(self).wf(),
            r.child.wf(),
            r.counter == r.child.entries().len(),
            final(self).entries() =~= old(self).entries().take(
                bound(old(self).entries(), *key),
            ),
            r.child.entries() =~= old(self).entries().skip(bound(old(self).entries(), *key)),
        decreases *old(self),
    {
        let (i, eq) = self.find_slot(key);
        if self.leaf {
            proof {
                if eq {
                    self.lemma_locate_leaf_eq(*key, i as int);
                } else {
                    self.lemma_locate_leaf(*key, i as int);
                }
            }
            let rkeys = self.keys.split_off(i);
            let counter = rkeys.len();
            let right = Node { keys: rkeys, pointers: Vec::new(), leaf: true };
            proof {
                assert(self.entries() =~= old(self).entries().take(i as int));
                assert(right.entries() =~= old(self).entries().skip(i as int));
                lemma_sorted_subrange(old(self).entries(), 0, i as int);
                lemma_sorted_subrange(
                    old(self).entries(),
                    i as int,
                    old(self).entries().len() as int,
                );
            }
            Pointer { child: Box::new(right), counter }
        } else if eq {
            proof {
                self.lemma_locate_eq(*key, i as int);
                self.lemma_at(i as int);
                assert(self.pointers@[i as int].child.wf());
            }
            let ghost orig = *self;
            let p = self.pointers.remove(i);
            let empty: Pointer<K, V> = Pointer { child: Node::new(), counter: 0 };
            proof {
                assert(p.child.entries().take(p.counter as int) =~= p.child.entries());
                assert(p.child.entries().skip(p.counter as int) =~= Seq::<(K, V)>::empty());
            }
            self.split_at_index(Ghost(orig), i, p, empty)
        } else {
            let ghost ch = self.pointers@[i as int].child.entries();
            proof {
                self.lemma_locate(*key, i as int);
                self.lemma_at(i as int);
                assert(self.pointers@[i as int].child.wf());
                lemma_bound_exists(ch, *key);
                assert(decreases_to!(*old(self) => *old(self).pointers@[i as int].child));
            }
            let ghost orig = *self;
            let mut p = self.pointers.remove(i);
            let sub = p.child.split_off(key);
            p.counter = p.counter - sub.counter;
            if i == self.keys.len() {
                self.pointers.push(p);
                proof {
                    assert(self.pointers@ =~= old(self).pointers@.update(i as int, p));
                    old(self).lemma_child_replaced(*self, i as int);
                    old(self).lemma_split_at_child(i as int);
                    assert(self.entries() =~= old(self).entries().take(
                        bound(old(self).entries(), *key),
                    ));
                    lemma_sorted_subrange(
                        old(self).entries(),
                        0,
                        bound(old(self).entries(), *key),
                    );
                    lemma_sorted_subrange(
                        old(self).entries(),
                        bound(old(self).entries(), *key),
                        old(self).entries().len() as int,
                    );
                    assert(sub.child.entries() =~= old(self).entries().skip(
                        bound(old(self).entries(), *key),
                    ));
                    assert forall|j: int| 0 <= j < self.pointers@.len() implies (
                    #[trigger] self.pointers@[j]).child.wf() && self.pointers@[j].counter
                        == self.pointers@[j].child.entries().len() by {
                        if j != i {
                            assert(self.pointers@[j] == old(self).pointers@[j]);
                        }
                    }
                }
                sub
            } else {
                self.split_at_index(Ghost(orig), i, p, sub)
            }
        }
    }
}

impl<K: TotalOrder, V> crate::IndexTreeMap<K, V> {
    /// Split the map at `key`: entries whose keys are at or above `key`
    /// move into the returned map, the rest stay.
    pub fn split_off(&mut self, key: &K) -> (r: crate::IndexTreeMap<K, V>)
        requires
            old(self).wf(),
        ensures
            final(self).wf(),
            r.wf(),
            final(self)@ =~= old(self)@.take(bound(old(self)@, *key)),
            r@ =~= old(self)@.skip(bound(old(self)@, *key)),
            final(self)@.len() + r@.len() == old(self)@.len(),
    {
        proof {
            lemma_bound_exists(self.root.entries(), *key);
        }
        if self.is_empty() {
            return crate::IndexTreeMap::new();
        }
        let p = self.root.split_off(key);
        let sz = p.counter;
        self.size = self.size - sz;
        crate::IndexTreeMap { root: p.child, size: sz }
    }

    /// Split the map at rank `index`: the entries at ranks `index` and
    /// above move into the returned map, the rest stay.
    pub fn split_off_from_index(&mut self, index: usize) -> (r: crate::IndexTreeMap<K, V>)
        requires
            old(self).wf(),
        ensures
            final(self).wf(),
            r.wf(),
            index <= old(self)@.len() ==> final(self)@ =~= old(self)@.take(index as int) && r@
                =~= old(self)@.skip(index as int) && final(self)@.len() + r@.len() == old(
                self,
            )@.len(),
            index > old(self)@.len() ==> final(self)@ == old(self)@ && r@ =~= Seq::<(
                K,
                V,
            )>::empty(),
    {
        if index >= self.size {
            proof {
                if index <= self@.len() {
                    assert(self@.take(index as int) =~= self@);
                    assert(self@.skip(index as int) =~= Seq::<(K, V)>::empty());
                }
            }
            return crate::IndexTreeMap::new();
        }
        let p = self.root.split_off_at_index(index);
        self.size = index;
        crate::IndexTreeMap { root: p.child, size: p.counter }
    }
}

} // verus!
