//! The node structure of the tree and its mathematical model.
//!
//! A node stores up to `KEY_ARRAY` entries.  An internal node additionally
//! stores one child edge per gap between entries (one more edge than
//! entries); each edge carries a counter equal to the number of entries in
//! the subtree it roots.  The model of a node is `entries()`: the sequence
//! of its key/value pairs in key order.

use vstd::prelude::*;

use crate::order::{key_eqv, key_lt, order_facts, TotalOrder};
use crate::seqs::{
    below, bound, has_key, is_bound, key_index, lemma_bound_exists, lemma_bound_is,
    lemma_bound_key, sorted,
};
use crate::KEY_ARRAY;

verus! {

/// One stored entry: a key and its value.
#[derive(Clone, Debug)]
pub struct Item<K, V> {
    pub key: K,
    pub value: V,
}

/// An owned child edge: the subtree below it and the number of entries in
/// that subtree.
#[derive(Clone, Debug)]
pub struct Pointer<K, V> {
    pub child: Box<Node<K, V>>,
    pub counter: usize,
}

/// A tree node.  `leaf` is true exactly when the node has no child edges;
/// an internal node with `n` entries has `n + 1` child edges.
#[derive(Debug)]
pub struct Node<K, V> {
    pub keys: Vec<Item<K, V>>,
    pub pointers: Vec<Pointer<K, V>>,
    pub leaf: bool,
}

impl<K: Clone, V: Clone> Clone for Node<K, V> {
    /// Deep copy of the subtree.  Nothing is claimed of the copy: what a
    /// clone of a key or value is depends on their own `Clone` impls.
    fn clone(&self) -> (res: Self)
        decreases self,
    {
        let mut ptrs: Vec<Pointer<K, V>> = Vec::new();
        let mut i: usize = 0;
        while i < self.pointers.len()
            invariant
                0 <= i <= self.pointers@.len(),
            decreases self.pointers@.len() - i,
        {
            proof {
                assert(decreases_to!(*self => *self.pointers@[i as int].child));
            }
            let c = (*self.pointers[i].child).clone();
            ptrs.push(Pointer { child: Box::new(c), counter: self.pointers[i].counter });
            i = i + 1;
        }
        Node { keys: self.keys.clone(), pointers: ptrs, leaf: self.leaf }
    }
}

impl<K, V> Item<K, V> {
    /// Pack a key and value into one entry.
    pub fn new(key: K, value: V) -> (r: Item<K, V>)
        ensures
            r.key == key,
            r.value == value,
    {
        Item { key, value }
    }
}

impl<K, V> Pointer<K, V> {
    /// An edge to a fresh empty subtree.
    pub fn new() -> (r: Pointer<K, V>)
        ensures
            r.counter == 0,
            r.child.entries() =~= Seq::<(K, V)>::empty(),
            r.child.leaf,
            r.child.keys@.len() == 0,
    {
        Pointer { child: Node::new(), counter: 0 }
    }
}

/// Result of a recursive insertion, reported to the parent node.
pub enum Output<K, V> {
    /// The entry was added somewhere below; counters on the path were
    /// already adjusted.
    Null,
    /// The key was already present; only its value changed.
    KeyExists,
    /// The child split: a separator entry and the new right sibling edge
    /// must be installed in the parent.
    NewKeyPointer(Item<K, V>, Pointer<K, V>),
}

impl<K, V> Node<K, V> {
    /// The key/value pair stored in slot `i`, as a spec value.
    pub open spec fn kv(self, i: int) -> (K, V) {
        (self.keys@[i].key, self.keys@[i].value)
    }

    /// Entry slots and edge slots are consistent with the leaf flag.
    pub open spec fn shape(self) -> bool {
        &&& (self.leaf <==> self.pointers@.len() == 0)
        &&& !self.leaf ==> self.pointers@.len() == self.keys@.len() + 1
    }

    /// The entries of the subtree rooted at edge `i` onward, in order:
    /// child `i`, entry `i`, child `i + 1`, entry `i + 1`, ...
    pub open spec fn entries_from(self, i: int) -> Seq<(K, V)>
        decreases self, self.keys@.len() - i,
    {
        if !self.leaf && self.pointers@.len() == self.keys@.len() + 1 && 0 <= i
            <= self.keys@.len() {
            if i == self.keys@.len() {
                self.pointers@[i].child.entries()
            } else {
                self.pointers@[i].child.entries() + seq![self.kv(i)] + self.entries_from(i + 1)
            }
        } else {
            Seq::empty()
        }
    }

    /// All entries of this subtree, in key order.
    pub open spec fn entries(self) -> Seq<(K, V)>
        decreases self, self.keys@.len() + 1,
    {
        if self.leaf {
            Seq::new(self.keys@.len() as nat, |i: int| self.kv(i))
        } else {
            self.entries_from(0)
        }
    }

    /// The entries that come before edge `i`: children and entries of all
    /// slots below `i`.
    pub open spec fn entries_upto(self, i: int) -> Seq<(K, V)>
        decreases i,
    {
        if !self.leaf && self.pointers@.len() == self.keys@.len() + 1 && 0 < i
            <= self.keys@.len() {
            self.entries_upto(i - 1) + self.pointers@[i - 1].child.entries() + seq![
                self.kv(i - 1),
            ]
        } else {
            Seq::empty()
        }
    }
}

impl<K: TotalOrder, V> Node<K, V> {
    /// Well-formedness of a subtree: shape, capacity, sound counters, and
    /// entries sorted strictly by key.
    pub open spec fn wf(self) -> bool
        decreases self,
    {
        &&& self.shape()
        &&& self.keys@.len() <= KEY_ARRAY
        &&& !self.leaf ==> self.keys@.len() >= 1
        &&& !self.leaf ==> forall|i: int|
            0 <= i < self.pointers@.len() ==> (#[trigger] self.pointers@[i]).child.wf()
                && self.pointers@[i].counter == self.pointers@[i].child.entries().len()
        &&& crate::seqs::sorted(self.entries())
        &&& self.entries().len() <= usize::MAX
    }
}

impl<K, V> Node<K, V> {
    /// A fresh empty leaf.
    pub fn new() -> (r: Box<Node<K, V>>)
        ensures
            r.leaf,
            r.keys@.len() == 0,
            r.pointers@.len() == 0,
            r.entries() =~= Seq::<(K, V)>::empty(),
    {
        Box::new(Node { keys: Vec::new(), pointers: Vec::new(), leaf: true })
    }

    /// True when the node holds as many entries as a node may hold.
    pub fn is_full(&self) -> (r: bool)
        ensures
            r == (self.keys@.len() == KEY_ARRAY),
    {
        self.keys.len() == KEY_ARRAY
    }

    /// True when the node holds no entries at all.
    pub fn is_empty(&self) -> (r: bool)
        ensures
            r == (self.keys@.len() == 0),
    {
        self.keys.len() == 0
    }
}

impl<K: TotalOrder, V> Node<K, V> {
    /// Number of entries in this subtree, computed from the entry count and
    /// the edge counters alone.
    pub fn size(&self) -> (r: usize)
        requires
            self.wf(),
        ensures
            r == self.entries().len(),
    {
        proof {
            self.lemma_entries_len();
        }
        if self.leaf {
            self.keys.len()
        } else {
            let mut acc: usize = self.keys.len();
            let mut i: usize = 0;
            proof {
                self.lemma_counter_sum_prefix(0);
            }
            while i < self.pointers.len()
                invariant
                    self.wf(),
                    !self.leaf,
                    0 <= i <= self.pointers@.len(),
                    acc == self.keys@.len() + self.counter_sum_prefix(i as int),
                    acc <= self.entries().len(),
                decreases self.pointers@.len() - i,
            {
                proof {
                    self.lemma_counter_sum_prefix(i + 1);
                }
                acc = acc + self.pointers[i].counter;
                i = i + 1;
            }
            proof {
                self.lemma_counter_sum_prefix(self.pointers@.len() as int);
            }
            acc
        }
    }

    /// Sum of the counters of the first `i` edges.
    pub open spec fn counter_sum_prefix(self, i: int) -> int
        decreases i,
    {
        if i <= 0 {
            0
        } else {
            self.counter_sum_prefix(i - 1) + self.pointers@[i - 1].counter
        }
    }

    /// For a well-formed internal node, the first `i` counters plus `i`
    /// entry slots account for exactly the entries before edge `i`, and the
    /// whole sum accounts for every entry.
    pub proof fn lemma_counter_sum_prefix(self, i: int)
        requires
            self.wf(),
            !self.leaf,
            0 <= i <= self.pointers@.len(),
        ensures
            i <= self.keys@.len() ==> self.counter_sum_prefix(i) + i == self.entries_upto(
                i,
            ).len(),
            i <= self.keys@.len() ==> self.counter_sum_prefix(i) + self.keys@.len()
                <= self.entries().len(),
            i == self.pointers@.len() ==> self.keys@.len() + self.counter_sum_prefix(i)
                == self.entries().len(),
        decreases i,
    {
        self.lemma_entries_len();
        if i > 0 {
            self.lemma_counter_sum_prefix(i - 1);
            if i <= self.keys@.len() {
            } else {
                self.lemma_decompose(i - 1);
            }
        }
        if i <= self.keys@.len() {
            self.lemma_decompose(i);
            self.lemma_entries_from_len(i);
        }
    }

    /// `entries()` splits at any edge `i` into the part before it and the
    /// part from it onward.
    pub proof fn lemma_decompose(self, i: int)
        requires
            self.shape(),
            !self.leaf,
            0 <= i <= self.keys@.len(),
        ensures
            self.entries() =~= self.entries_upto(i) + self.entries_from(i),
        decreases i,
    {
        if i == 0 {
        } else {
            self.lemma_decompose(i - 1);
        }
    }

    /// The entry count of a subtree is at least the node's own entry count,
    /// and each child's entries fit inside the whole.
    pub proof fn lemma_entries_len(self)
        requires
            self.shape(),
        ensures
            self.entries().len() >= self.keys@.len(),
            !self.leaf ==> forall|i: int|
                0 <= i <= self.keys@.len() ==> self.entries_upto(i).len() + (
                #[trigger] self.entries_from(i)).len() == self.entries().len(),
        decreases self.keys@.len() + 1,
    {
        if self.leaf {
        } else {
            assert forall|i: int| 0 <= i <= self.keys@.len() implies self.entries_upto(i).len()
                + (#[trigger] self.entries_from(i)).len() == self.entries().len() by {
                self.lemma_decompose(i);
            }
            self.lemma_entries_from_len(0);
        }
    }

    /// The layout of `entries()` around edge `i` of an internal node: the
    /// child's entries form a contiguous block of length `counter`, and the
    /// separator entry of slot `i` follows that block.
    pub proof fn lemma_at(self, i: int)
        requires
            self.wf(),
            !self.leaf,
            0 <= i <= self.keys@.len(),
        ensures
            self.entries_upto(i).len() + self.pointers@[i].counter <= self.entries().len(),
            self.pointers@[i].child.entries() =~= self.entries().subrange(
                self.entries_upto(i).len() as int,
                self.entries_upto(i).len() + self.pointers@[i].counter,
            ),
            i < self.keys@.len() ==> self.entries_upto(i).len() + self.pointers@[i].counter
                < self.entries().len() && self.entries()[self.entries_upto(i).len()
                + self.pointers@[i].counter] == self.kv(i) && self.entries_upto(i + 1).len()
                == self.entries_upto(i).len() + self.pointers@[i].counter + 1,
            i == self.keys@.len() ==> self.entries_upto(i).len() + self.pointers@[i].counter
                == self.entries().len(),
    {
        self.lemma_decompose(i);
    }

    /// The model this node would have after a separator `item` and right
    /// edge `ptr` were spliced in right after child `i`.
    pub open spec fn spliced(self, i: int, item: Item<K, V>, ptr: Pointer<K, V>) -> Seq<(K, V)> {
        self.entries_upto(i) + self.pointers@[i].child.entries() + seq![(item.key, item.value)]
            + ptr.child.entries() + self.rest_from(i)
    }

    /// The part of `entries_from(i)` that follows child `i`.
    pub open spec fn rest_from(self, i: int) -> Seq<(K, V)> {
        if i < self.keys@.len() {
            seq![self.kv(i)] + self.entries_from(i + 1)
        } else {
            Seq::empty()
        }
    }

    /// `entries()` written as: everything before edge `i`, then child `i`,
    /// then the rest.
    pub proof fn lemma_split_at_child(self, i: int)
        requires
            self.shape(),
            !self.leaf,
            0 <= i <= self.keys@.len(),
        ensures
            self.entries() =~= self.entries_upto(i) + self.pointers@[i].child.entries()
                + self.rest_from(i),
    {
        self.lemma_decompose(i);
    }

    /// Prefixes of the model agree between two nodes that agree on the
    /// first `i` slots and edges.
    pub proof fn lemma_upto_congruence(self, other: Self, i: int)
        requires
            self.shape(),
            other.shape(),
            !self.leaf,
            !other.leaf,
            0 <= i <= self.keys@.len(),
            i <= other.keys@.len(),
            forall|j: int| 0 <= j < i ==> self.keys@[j] == other.keys@[j],
            forall|j: int|
                0 <= j < i ==> (#[trigger] self.pointers@[j]).child
                    == other.pointers@[j].child,
        ensures
            self.entries_upto(i) == other.entries_upto(i),
        decreases i,
    {
        if i > 0 {
            self.lemma_upto_congruence(other, i - 1);
        }
    }

    /// Suffixes of the model agree between two nodes that agree on the
    /// slots and edges from `i` on.
    pub proof fn lemma_from_congruence(self, other: Self, i: int)
        requires
            self.shape(),
            other.shape(),
            !self.leaf,
            !other.leaf,
            self.keys@.len() == other.keys@.len(),
            0 <= i <= self.keys@.len(),
            forall|j: int| i <= j < self.keys@.len() ==> self.keys@[j] == other.keys@[j],
            forall|j: int|
                i <= j < self.pointers@.len() ==> (#[trigger] self.pointers@[j]).child
                    == other.pointers@[j].child,
        ensures
            self.entries_from(i) == other.entries_from(i),
        decreases self.keys@.len() - i,
    {
        if i < self.keys@.len() {
            self.lemma_from_congruence(other, i + 1);
        }
    }

    /// The model of a node after child `i` alone was replaced.
    pub proof fn lemma_child_replaced(self, other: Self, i: int)
        requires
            self.shape(),
            other.shape(),
            !self.leaf,
            !other.leaf,
            self.keys@ == other.keys@,
            self.pointers@.len() == other.pointers@.len(),
            0 <= i < self.pointers@.len(),
            forall|j: int|
                0 <= j < self.pointers@.len() && j != i ==> (#[trigger] self.pointers@[j]).child
                    == other.pointers@[j].child,
        ensures
            other.entries() =~= self.entries_upto(i) + other.pointers@[i].child.entries()
                + self.rest_from(i),
            self.entries() =~= self.entries_upto(i) + self.pointers@[i].child.entries()
                + self.rest_from(i),
    {
        self.lemma_split_at_child(i);
        other.lemma_split_at_child(i);
        self.lemma_upto_congruence(other, i);
        if i < self.keys@.len() {
            self.lemma_from_congruence(other, i + 1);
        }
    }

    /// The model of a node after the key of slot `i`, and possibly child
    /// `i`, were replaced.
    pub proof fn lemma_slot_replaced(self, other: Self, i: int)
        requires
            self.shape(),
            other.shape(),
            !self.leaf,
            !other.leaf,
            self.keys@.len() == other.keys@.len(),
            self.pointers@.len() == other.pointers@.len(),
            0 <= i < self.keys@.len(),
            forall|j: int| 0 <= j < self.keys@.len() && j != i ==> self.keys@[j] == other.keys@[j],
            forall|j: int|
                0 <= j < self.pointers@.len() && j != i ==> (#[trigger] self.pointers@[j]).child
                    == other.pointers@[j].child,
        ensures
            other.entries() =~= self.entries_upto(i) + other.pointers@[i].child.entries() + seq![
                other.kv(i),
            ] + self.entries_from(i + 1),
            self.entries() =~= self.entries_upto(i) + self.pointers@[i].child.entries() + seq![
                self.kv(i),
            ] + self.entries_from(i + 1),
    {
        self.lemma_decompose(i);
        other.lemma_decompose(i);
        self.lemma_upto_congruence(other, i);
        self.lemma_from_congruence(other, i + 1);
    }

    /// Tails line up with an index shift of one between a node and the
    /// node it came from by dropping one slot and one edge below `j`.
    pub proof fn lemma_shifted_from(self, other: Self, j: int)
        requires
            self.shape(),
            other.shape(),
            !self.leaf,
            !other.leaf,
            other.keys@.len() + 1 == self.keys@.len(),
            other.pointers@.len() + 1 == self.pointers@.len(),
            0 <= j <= other.keys@.len(),
            forall|jj: int| j <= jj < other.keys@.len() ==> other.keys@[jj] == self.keys@[jj + 1],
            forall|jj: int|
                j <= jj < other.pointers@.len() ==> (#[trigger] other.pointers@[jj]).child
                    == self.pointers@[jj + 1].child,
        ensures
            other.entries_from(j) == self.entries_from(j + 1),
        decreases other.keys@.len() - j,
    {
        if j < other.keys@.len() {
            self.lemma_shifted_from(other, j + 1);
            assert(other.kv(j) == self.kv(j + 1));
        }
    }

    /// The model of a node after slot `i` and edge `i + 1` were removed,
    /// with edge `i` replaced (as when two children are merged).
    pub proof fn lemma_remove_slot(self, other: Self, i: int)
        requires
            self.shape(),
            other.shape(),
            !self.leaf,
            !other.leaf,
            other.keys@.len() + 1 == self.keys@.len(),
            other.pointers@.len() + 1 == self.pointers@.len(),
            0 <= i < self.keys@.len(),
            forall|j: int| 0 <= j < i ==> other.keys@[j] == self.keys@[j],
            forall|j: int| i <= j < other.keys@.len() ==> other.keys@[j] == self.keys@[j + 1],
            forall|j: int|
                0 <= j < i ==> (#[trigger] other.pointers@[j]).child == self.pointers@[j].child,
            forall|j: int|
                i < j < other.pointers@.len() ==> (#[trigger] other.pointers@[j]).child
                    == self.pointers@[j + 1].child,
        ensures
            other.entries() =~= self.entries_upto(i) + other.pointers@[i].child.entries()
                + self.rest_from(i + 1),
    {
        other.lemma_decompose(i);
        self.lemma_upto_congruence(other, i);
        if i < other.keys@.len() {
            assert(other.entries_from(i) == other.pointers@[i].child.entries() + seq![
                other.kv(i),
            ] + other.entries_from(i + 1));
            self.lemma_shifted_from(other, i + 1);
            assert(other.kv(i) == self.kv(i + 1));
        } else {
            assert(other.entries_from(i) == other.pointers@[i].child.entries());
        }
    }

    /// The model of a node after slot `i` and its left edge `i` were
    /// removed (as when an exhausted edge is dropped).
    pub proof fn lemma_drop_slot_edge(self, other: Self, i: int)
        requires
            self.shape(),
            other.shape(),
            !self.leaf,
            !other.leaf,
            other.keys@.len() + 1 == self.keys@.len(),
            other.pointers@.len() + 1 == self.pointers@.len(),
            0 <= i < self.keys@.len(),
            forall|j: int| 0 <= j < i ==> other.keys@[j] == self.keys@[j],
            forall|j: int| i <= j < other.keys@.len() ==> other.keys@[j] == self.keys@[j + 1],
            forall|j: int|
                0 <= j < i ==> (#[trigger] other.pointers@[j]).child == self.pointers@[j].child,
            forall|j: int|
                i <= j < other.pointers@.len() ==> (#[trigger] other.pointers@[j]).child
                    == self.pointers@[j + 1].child,
        ensures
            other.entries() =~= self.entries_upto(i) + self.entries_from(i + 1),
    {
        other.lemma_decompose(i);
        self.lemma_upto_congruence(other, i);
        self.lemma_shifted_from(other, i);
    }

    /// After inserting a separator at slot `i` and its right edge at edge
    /// `i + 1`, the model gains the separator and the new edge's entries
    /// right after child `i`.
    pub proof fn lemma_insert_slot(self, other: Self, i: int, it: Item<K, V>, p: Pointer<K, V>)
        requires
            self.shape(),
            other.shape(),
            !self.leaf,
            !other.leaf,
            0 <= i <= self.keys@.len(),
            other.keys@ == self.keys@.insert(i, it),
            other.pointers@ == self.pointers@.insert(i + 1, p),
        ensures
            other.entries() =~= self.entries_upto(i) + self.pointers@[i].child.entries() + seq![
                (it.key, it.value),
            ] + p.child.entries() + self.rest_from(i),
    {
        other.lemma_decompose(i);
        self.lemma_upto_congruence(other, i);
        assert(other.entries_from(i) == other.pointers@[i].child.entries() + seq![other.kv(i)]
            + other.entries_from(i + 1));
        assert(other.pointers@[i].child == self.pointers@[i].child);
        assert(other.kv(i) == (it.key, it.value));
        if i < self.keys@.len() {
            self.lemma_insert_slot_from(other, i, it, p, i + 2);
            assert(other.entries_from(i + 1) == other.pointers@[i + 1].child.entries() + seq![
                other.kv(i + 1),
            ] + other.entries_from(i + 2));
            assert(other.pointers@[i + 1].child == p.child);
            assert(other.kv(i + 1) == self.kv(i));
        } else {
            assert(other.entries_from(i + 1) == other.pointers@[i + 1].child.entries());
        }
    }

    /// Helper for `lemma_insert_slot`: past the inserted pair, the tails
    /// of the two nodes line up with an index shift of one.
    pub proof fn lemma_insert_slot_from(
        self,
        other: Self,
        i: int,
        it: Item<K, V>,
        p: Pointer<K, V>,
        j: int,
    )
        requires
            self.shape(),
            other.shape(),
            !self.leaf,
            !other.leaf,
            0 <= i <= self.keys@.len(),
            other.keys@ == self.keys@.insert(i, it),
            other.pointers@ == self.pointers@.insert(i + 1, p),
            i + 2 <= j <= other.keys@.len(),
        ensures
            other.entries_from(j) == self.entries_from(j - 1),
        decreases other.keys@.len() - j,
    {
        if j == other.keys@.len() {
            assert(other.pointers@[j] == self.pointers@[j - 1]);
        } else {
            self.lemma_insert_slot_from(other, i, it, p, j + 1);
            assert(other.pointers@[j] == self.pointers@[j - 1]);
            assert(other.keys@[j] == self.keys@[j - 1]);
            assert(other.kv(j) == self.kv(j - 1));
        }
    }

    /// A node built from the first `m` slots and first `m + 1` edges
    /// models the entries before edge `m` plus child `m`.
    pub proof fn lemma_prefix_node(self, other: Self, m: int)
        requires
            self.shape(),
            other.shape(),
            !self.leaf,
            !other.leaf,
            1 <= m <= self.keys@.len(),
            other.keys@ == self.keys@.take(m),
            other.pointers@ == self.pointers@.take(m + 1),
        ensures
            other.entries() =~= self.entries_upto(m) + self.pointers@[m].child.entries(),
    {
        other.lemma_decompose(m);
        self.lemma_upto_congruence(other, m);
        assert(other.entries_from(m) == other.pointers@[m].child.entries());
        assert(other.pointers@[m] == self.pointers@[m]);
    }

    /// A node built from the slots and edges from `d` on models
    /// `entries_from(d)`.
    pub proof fn lemma_suffix_node(self, other: Self, d: int)
        requires
            self.shape(),
            other.shape(),
            !self.leaf,
            !other.leaf,
            0 <= d < self.keys@.len(),
            other.keys@ == self.keys@.skip(d),
            other.pointers@ == self.pointers@.skip(d),
        ensures
            other.entries() == self.entries_from(d),
    {
        self.lemma_suffix_node_from(other, d, d);
    }

    /// Helper for `lemma_suffix_node`: the tails line up with an index
    /// shift of `d`, given slot and edge agreement from `j` on.
    pub proof fn lemma_suffix_node_from(self, other: Self, d: int, j: int)
        requires
            self.shape(),
            other.shape(),
            !self.leaf,
            !other.leaf,
            0 <= d <= self.keys@.len(),
            other.keys@.len() + d == self.keys@.len(),
            other.pointers@.len() + d == self.pointers@.len(),
            d <= j <= self.keys@.len(),
            forall|jj: int| j <= jj < self.keys@.len() ==> other.keys@[jj - d] == self.keys@[jj],
            forall|jj: int|
                j <= jj < self.pointers@.len() ==> (#[trigger] other.pointers@[jj - d]).child
                    == self.pointers@[jj].child,
        ensures
            other.entries_from(j - d) == self.entries_from(j),
        decreases self.keys@.len() - j,
    {
        if j == self.keys@.len() {
            assert(other.pointers@[j - d].child == self.pointers@[j].child);
        } else {
            self.lemma_suffix_node_from(other, d, j + 1);
            assert(other.pointers@[j - d].child == self.pointers@[j].child);
            assert(other.keys@[j - d] == self.keys@[j]);
            assert(other.kv(j - d) == self.kv(j));
        }
    }

    /// When the first `i` slot keys are below `k`, so is every entry
    /// before edge `i`.
    pub proof fn lemma_below_upto(self, k: K, i: int)
        requires
            self.wf(),
            !self.leaf,
            0 <= i <= self.keys@.len(),
            forall|j: int| 0 <= j < i ==> key_lt(#[trigger] self.keys@[j].key, k),
        ensures
            forall|p: int|
                0 <= p < self.entries_upto(i).len() ==> key_lt(
                    (#[trigger] self.entries()[p]).0,
                    k,
                ),
    {
        order_facts::<K>();
        if i > 0 {
            self.lemma_at(i - 1);
            let last = self.entries_upto(i).len() - 1;
            assert(self.entries()[last] == self.kv(i - 1));
            assert forall|p: int| 0 <= p < self.entries_upto(i).len() implies key_lt(
                (#[trigger] self.entries()[p]).0,
                k,
            ) by {
                if p < last {
                    assert(key_lt(self.entries()[p].0, self.entries()[last].0));
                }
            }
        }
    }

    /// Descending into child `i` after passing slots whose keys are below
    /// `k` and stopping before a slot whose key is above `k`: the child
    /// holds `k` exactly when the whole subtree does, at the offset of the
    /// child's block.
    pub proof fn lemma_locate(self, k: K, i: int)
        requires
            self.wf(),
            !self.leaf,
            0 <= i <= self.keys@.len(),
            forall|j: int| 0 <= j < i ==> key_lt(#[trigger] self.keys@[j].key, k),
            i < self.keys@.len() ==> key_lt(k, self.keys@[i].key),
        ensures
            has_key(self.entries(), k) <==> has_key(self.pointers@[i].child.entries(), k),
            has_key(self.entries(), k) ==> key_index(self.entries(), k)
                == self.entries_upto(i).len() + key_index(self.pointers@[i].child.entries(), k),
            has_key(self.entries(), k) ==> 0 <= key_index(self.pointers@[i].child.entries(), k)
                < self.pointers@[i].child.entries().len() && self.entries()[key_index(
                self.entries(),
                k,
            )] == self.pointers@[i].child.entries()[key_index(
                self.pointers@[i].child.entries(),
                k,
            )],
            bound(self.entries(), k) == self.entries_upto(i).len() + bound(
                self.pointers@[i].child.entries(),
                k,
            ),
    {
        order_facts::<K>();
        self.lemma_at(i);
        self.lemma_below_upto(k, i);
        let s = self.entries();
        let ch = self.pointers@[i].child.entries();
        let off = self.entries_upto(i).len() as int;
        let c = self.pointers@[i].counter as int;
        assert(sorted(ch));
        assert forall|p: int| off + c <= p < s.len() implies !key_lt((#[trigger] s[p]).0, k) by {
            assert(i < self.keys@.len());
            assert(s[off + c] == self.kv(i));
            if p > off + c {
                assert(key_lt(s[off + c].0, s[p].0));
            }
        }
        lemma_bound_exists(ch, k);
        let bc = bound(ch, k);
        assert forall|p: int| 0 <= p < off + bc implies key_lt((#[trigger] s.take(off + bc)[p]).0, k)
            by {
            assert(s.take(off + bc)[p] == s[p]);
            if p >= off {
                assert(s[p] == ch[p - off]);
                assert(ch.take(bc)[p - off] == ch[p - off]);
            }
        }
        assert forall|p: int| 0 <= p < s.len() - (off + bc) implies !key_lt(
            (#[trigger] s.skip(off + bc)[p]).0,
            k,
        ) by {
            assert(s.skip(off + bc)[p] == s[off + bc + p]);
            if off + bc + p < off + c {
                assert(s[off + bc + p] == ch[bc + p]);
                assert(ch.skip(bc)[p] == ch[bc + p]);
            }
        }
        assert(is_bound(s, k, off + bc));
        lemma_bound_is(s, k, off + bc);
        lemma_bound_key(s, k);
        lemma_bound_key(ch, k);
        if bc < c {
            assert(s[off + bc] == ch[bc]);
        }
    }

    /// The key of slot `i` matches `k`: the entry at slot `i` is the match
    /// and it sits right after child `i`'s block.
    pub proof fn lemma_locate_eq(self, k: K, i: int)
        requires
            self.wf(),
            !self.leaf,
            0 <= i < self.keys@.len(),
            key_eqv(self.keys@[i].key, k),
        ensures
            has_key(self.entries(), k),
            key_index(self.entries(), k) == self.entries_upto(i).len()
                + self.pointers@[i].counter,
            self.entries()[key_index(self.entries(), k)] == self.kv(i),
            bound(self.entries(), k) == key_index(self.entries(), k),
    {
        order_facts::<K>();
        self.lemma_at(i);
        let s = self.entries();
        let pos = self.entries_upto(i).len() + self.pointers@[i].counter;
        assert(s[pos as int] == self.kv(i));
        assert(key_eqv(s[pos as int].0, k));
        assert(has_key(s, k));
        assert forall|p: int| 0 <= p < pos implies key_lt((#[trigger] s.take(pos as int)[p]).0, k)
            by {
            assert(s.take(pos as int)[p] == s[p]);
            assert(key_lt(s[p].0, s[pos as int].0));
        }
        assert forall|p: int| 0 <= p < s.len() - pos implies !key_lt(
            (#[trigger] s.skip(pos as int)[p]).0,
            k,
        ) by {
            assert(s.skip(pos as int)[p] == s[pos + p]);
            if p > 0 {
                assert(key_lt(s[pos as int].0, s[pos + p].0));
            }
        }
        assert(is_bound(s, k, pos as int));
        lemma_bound_is(s, k, pos as int);
        lemma_bound_key(s, k);
    }

    /// Scanning a leaf: slot `i` is where `k` would sit; it is absent when
    /// slot `i` holds a larger key or no key.
    pub proof fn lemma_locate_leaf(self, k: K, i: int)
        requires
            self.wf(),
            self.leaf,
            0 <= i <= self.keys@.len(),
            forall|j: int| 0 <= j < i ==> key_lt(#[trigger] self.keys@[j].key, k),
            i < self.keys@.len() ==> key_lt(k, self.keys@[i].key),
        ensures
            !has_key(self.entries(), k),
            bound(self.entries(), k) == i,
    {
        order_facts::<K>();
        let s = self.entries();
        assert forall|p: int| 0 <= p < i implies key_lt((#[trigger] s.take(i)[p]).0, k) by {
            assert(s.take(i)[p] == s[p] && s[p] == self.kv(p));
        }
        assert forall|p: int| 0 <= p < s.len() - i implies !key_lt((#[trigger] s.skip(i)[p]).0, k)
            by {
            assert(s.skip(i)[p] == s[i + p]);
            if p > 0 {
                assert(key_lt(s[i].0, s[i + p].0));
            }
        }
        assert(is_bound(s, k, i));
        lemma_bound_is(s, k, i);
        lemma_bound_key(s, k);
    }

    /// Scanning a leaf and finding a matching key at slot `i`.
    pub proof fn lemma_locate_leaf_eq(self, k: K, i: int)
        requires
            self.wf(),
            self.leaf,
            0 <= i < self.keys@.len(),
            key_eqv(self.keys@[i].key, k),
        ensures
            has_key(self.entries(), k),
            key_index(self.entries(), k) == i,
            self.entries()[i] == self.kv(i),
            bound(self.entries(), k) == i,
    {
        order_facts::<K>();
        let s = self.entries();
        assert(s[i] == self.kv(i));
        assert(key_eqv(s[i].0, k));
        assert(has_key(s, k));
        assert forall|p: int| 0 <= p < i implies key_lt((#[trigger] s.take(i)[p]).0, k) by {
            assert(s.take(i)[p] == s[p] && s[p] == self.kv(p));
            assert(key_lt(s[p].0, s[i].0));
        }
        assert forall|p: int| 0 <= p < s.len() - i implies !key_lt((#[trigger] s.skip(i)[p]).0, k)
            by {
            assert(s.skip(i)[p] == s[i + p]);
            if p > 0 {
                assert(key_lt(s[i].0, s[i + p].0));
            }
        }
        assert(is_bound(s, k, i));
        lemma_bound_is(s, k, i);
        lemma_bound_key(s, k);
    }

    /// The tail `entries_from(i)` holds at least the remaining entry slots.
    pub proof fn lemma_entries_from_len(self, i: int)
        requires
            self.shape(),
            !self.leaf,
            0 <= i <= self.keys@.len(),
        ensures
            self.entries_from(i).len() >= self.keys@.len() - i,
        decreases self.keys@.len() - i,
    {
        if i < self.keys@.len() {
            self.lemma_entries_from_len(i + 1);
        }
    }
}

} // verus!
