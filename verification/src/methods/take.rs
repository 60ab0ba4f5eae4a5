//! Taking contents out of a node: the rightmost entry of a subtree, whole
//! slot arrays, and collapsing a rootless node into its only child.

use vstd::prelude::*;

use crate::order::TotalOrder;
use crate::seqs::lemma_sorted_subrange;
use crate::stc::{Item, Node, Pointer};

verus! {

impl<K, V> Node<K, V> {
    /// Take all entry slots, leaving none behind.
    pub fn take_keys(&mut self) -> (r: Vec<Item<K, V>>)
        ensures
            r@ == old(self).keys@,
            final(self).keys@.len() == 0,
            final(self).pointers@ == old(self).pointers@,
            final(self).leaf == old(self).leaf,
    {
        let mut v: Vec<Item<K, V>> = Vec::new();
        core::mem::swap(&mut v, &mut self.keys);
        v
    }

    /// Take all edge slots, leaving none behind.
    pub fn take_pointers(&mut self) -> (r: Vec<Pointer<K, V>>)
        ensures
            r@ == old(self).pointers@,
            final(self).pointers@.len() == 0,
            final(self).keys@ == old(self).keys@,
            final(self).leaf == old(self).leaf,
    {
        let mut v: Vec<Pointer<K, V>> = Vec::new();
        core::mem::swap(&mut v, &mut self.pointers);
        v
    }
}

impl<K: TotalOrder, V> Node<K, V> {
    /// A node that lost its last entry but still has a single edge takes
    /// its child's place, so the tree loses one level.
    pub fn fill_empty_root(&mut self)
        requires
            !old(self).leaf,
            old(self).keys@.len() == 0,
            old(self).pointers@.len() == 1,
            old(self).pointers@[0].child.wf(),
        ensures
            final(self).wf(),
            final(self).entries() == old(self).pointers@[0].child.entries(),
    {
        let mut p = self.pointers.pop().unwrap();
        core::mem::swap(self, &mut *p.child);
    }

    /// Remove and return the entry with the largest key in this subtree.
    pub fn take_last_key(&mut self) -> (r: Option<Item<K, V>>)
        requires
            old(self).wf(),
        ensures
            final(self).wf(),
            match r {
                Some(it) => old(self).entries().len() > 0 && (it.key, it.value) == old(
                    self,
                ).entries().last() && final(self).entries() =~= old(self).entries().drop_last(),
                None => old(self).entries().len() == 0 && final(self).entries() == old(
                    self,
                ).entries(),
            },
        decreases *old(self),
    {
        if self.leaf {
            match self.keys.pop() {
                Some(it) => {
                    proof {
                        assert(self.entries() =~= old(self).entries().drop_last());
                        lemma_sorted_subrange(
                            old(self).entries(),
                            0,
                            old(self).entries().len() - 1,
                        );
                    }
                    Some(it)
                },
                None => None,
            }
        } else {
            let n = self.keys.len();
            proof {
                old(self).lemma_at(n as int);
                old(self).lemma_at(n - 1);
            }
            let mut p = self.pointers.pop().unwrap();
            if p.counter == 0 {
                let it = self.keys.pop().unwrap();
                if self.keys.len() == 0 {
                    proof {
                        assert(old(self).pointers@[0].child.wf());
                        assert(self.pointers@[0] == old(self).pointers@[0]);
                        assert(old(self).entries_upto(1) == old(self).entries_upto(0) + old(
                            self,
                        ).pointers@[0].child.entries() + seq![old(self).kv(0)]);
                    }
                    self.fill_empty_root();
                    proof {
                        assert(self.entries() == old(self).pointers@[0].child.entries());
                        old(self).lemma_decompose(1);
                        assert(old(self).entries_from(1) == old(self).pointers@[1].child.entries());
                        assert(old(self).pointers@[1].counter == old(
                            self,
                        ).pointers@[1].child.entries().len());
                        assert(old(self).pointers@[1].child.entries().len() == 0);
                        assert(old(self).entries() =~= old(self).pointers@[0].child.entries()
                            + seq![old(self).kv(0)]);
                        assert((old(self).pointers@[0].child.entries() + seq![
                            old(self).kv(0),
                        ]).drop_last() =~= old(self).pointers@[0].child.entries());
                        assert(self.entries() =~= old(self).entries().drop_last());
                    }
                    Some(it)
                } else {
                    proof {
                        assert(self.keys@ =~= old(self).keys@.take(n - 1));
                        assert(self.pointers@ =~= old(self).pointers@.take(n as int));
                        old(self).lemma_prefix_node(*self, n - 1);
                        old(self).lemma_decompose(n as int);
                        assert(old(self).entries_from(n as int) == old(
                            self,
                        ).pointers@[n as int].child.entries());
                        assert(old(self).pointers@[n as int].counter == old(
                            self,
                        ).pointers@[n as int].child.entries().len());
                        assert(old(self).pointers@[n as int].child.entries().len() == 0);
                        assert(old(self).entries_upto(n as int) == old(self).entries_upto(n - 1)
                            + old(self).pointers@[n - 1].child.entries() + seq![
                            old(self).kv(n - 1),
                        ]);
                        assert(self.entries() =~= old(self).entries().drop_last());
                        lemma_sorted_subrange(
                            old(self).entries(),
                            0,
                            old(self).entries().len() - 1,
                        );
                        assert forall|j: int| 0 <= j < self.pointers@.len() implies (
                        #[trigger] self.pointers@[j]).child.wf() && self.pointers@[j].counter
                            == self.pointers@[j].child.entries().len() by {
                            assert(self.pointers@[j] == old(self).pointers@[j]);
                        }
                    }
                    Some(it)
                }
            } else {
                proof {
                    assert(decreases_to!(*old(self) => *old(self).pointers@[n as int].child));
                    assert(old(self).pointers@[n as int].child.wf());
                }
                let out = p.child.take_last_key();
                let it = out.unwrap();
                p.counter = p.counter - 1;
                self.pointers.push(p);
                proof {
                    assert(self.pointers@ =~= old(self).pointers@.update(n as int, p));
                    old(self).lemma_child_replaced(*self, n as int);
                    assert(self.entries() =~= old(self).entries().drop_last());
                    lemma_sorted_subrange(old(self).entries(), 0, old(self).entries().len() - 1);
                    assert forall|j: int| 0 <= j < self.pointers@.len() implies (
                    #[trigger] self.pointers@[j]).child.wf() && self.pointers@[j].counter
                        == self.pointers@[j].child.entries().len() by {
                        if j != n {
                            assert(self.pointers@[j] == old(self).pointers@[j]);
                        }
                    }
                }
                Some(it)
            }
        }
    }
}

} // verus!
