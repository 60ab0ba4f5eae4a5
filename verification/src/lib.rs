//! An ordered associative container whose entries can be addressed both by
//! key and by 0-based rank in the sorted sequence of keys.  The core is a
//! B-tree in which every child edge carries the number of entries stored in
//! the subtree it roots, so rank lookups and rank splits run in logarithmic
//! time alongside the usual key operations.

pub mod laws;
pub mod methods;
pub mod order;
pub mod seqs;
pub mod stc;

use vstd::prelude::*;

use crate::order::TotalOrder;
use crate::seqs::{has_key, key_index};
use crate::stc::Node;

verus! {

/// Largest number of entries a node may hold.
pub const KEY_ARRAY: usize = 13;

/// Largest number of child edges a node may hold.
pub const POINTER_ARRAY: usize = KEY_ARRAY + 1;

/// An ordered map whose entries can be addressed by key or by rank.
#[derive(Clone, Debug)]
pub struct IndexTreeMap<K, V> {
    pub root: Box<Node<K, V>>,
    pub size: usize,
}

/// An ordered set: a map whose entries carry no values.
#[derive(Clone, Debug)]
pub struct IndexTreeSet<K> {
    pub map: IndexTreeMap<K, ()>,
}

impl<K> View for IndexTreeSet<K> {
    type V = Seq<K>;

    /// The model of the set: its keys in order.
    open spec fn view(&self) -> Seq<K> {
        self.map@.map_values(|e: (K, ())| e.0)
    }
}

impl<K: TotalOrder> IndexTreeSet<K> {
    /// Validity of the underlying map.
    pub open spec fn wf(self) -> bool {
        self.map.wf()
    }

    /// Makes a new, empty set.
    pub fn new() -> (r: IndexTreeSet<K>)
        ensures
            r.wf(),
            r@ =~= Seq::<K>::empty(),
    {
        IndexTreeSet { map: IndexTreeMap::new() }
    }

    /// Removes every key.
    pub fn clear(&mut self)
        ensures
            final(self).wf(),
            final(self)@ =~= Seq::<K>::empty(),
    {
        self.map.clear()
    }

    /// The number of keys in the set.
    pub fn len(&self) -> (r: usize)
        requires
            self.wf(),
        ensures
            r == self@.len(),
    {
        self.map.len()
    }

    /// True when the set holds no key.
    pub fn is_empty(&self) -> (r: bool)
        requires
            self.wf(),
        ensures
            r == (self@.len() == 0),
    {
        self.map.is_empty()
    }

    /// True when some stored key matches `key`.
    pub fn contains_key(&self, key: &K) -> (r: bool)
        requires
            self.wf(),
        ensures
            r == has_key(self.map@, *key),
    {
        self.map.contains_key(key)
    }

    /// True when `index` is the rank of some key.
    pub fn contains_index(&self, index: usize) -> (r: bool)
        requires
            self.wf(),
        ensures
            r == (index < self@.len()),
    {
        self.map.contains_index(index)
    }

    /// The stored key matching `key`.
    pub fn get(&self, key: &K) -> (r: Option<&K>)
        requires
            self.wf(),
        ensures
            match r {
                Some(k) => has_key(self.map@, *key) && *k == self@[key_index(self.map@, *key)],
                None => !has_key(self.map@, *key),
            },
    {
        match self.map.get_key_value(key) {
            Some(p) => Some(p.0),
            None => None,
        }
    }

    /// The key at rank `index`.
    pub fn get_from_index(&self, index: usize) -> (r: Option<&K>)
        requires
            self.wf(),
        ensures
            match r {
                Some(k) => index < self@.len() && *k == self@[index as int],
                None => index >= self@.len(),
            },
    {
        self.map.get_key_from_index(index)
    }

    /// The rank of `key` in the set.
    pub fn get_index_from_key(&self, key: &K) -> (r: Option<usize>)
        requires
            self.wf(),
        ensures
            match r {
                Some(x) => has_key(self.map@, *key) && x == key_index(self.map@, *key),
                None => !has_key(self.map@, *key),
            },
    {
        self.map.get_index_from_key(key)
    }

    /// The key at rank `index`.
    pub fn get_key_from_index(&self, index: usize) -> (r: Option<&K>)
        requires
            self.wf(),
        ensures
            match r {
                Some(k) => index < self@.len() && *k == self@[index as int],
                None => index >= self@.len(),
            },
    {
        self.map.get_key_from_index(index)
    }

    /// The smallest key.
    pub fn get_first(&self) -> (r: Option<&K>)
        requires
            self.wf(),
        ensures
            match r {
                Some(k) => self@.len() > 0 && *k == self@[0],
                None => self@.len() == 0,
            },
    {
        self.map.get_first_key()
    }

    /// The largest key.
    pub fn get_last(&self) -> (r: Option<&K>)
        requires
            self.wf(),
        ensures
            match r {
                Some(k) => self@.len() > 0 && *k == self@[self@.len() - 1],
                None => self@.len() == 0,
            },
    {
        self.map.get_last_key()
    }

    /// Insert `key`: a fresh key gains a place in the order; a present
    /// key leaves the set unchanged.
    pub fn insert(&mut self, key: K)
        requires
            old(self).wf(),
            old(self)@.len() < usize::MAX,
        ensures
            final(self).wf(),
            has_key(old(self).map@, key) ==> final(self)@ =~= old(self)@,
            !has_key(old(self).map@, key) ==> final(self)@ =~= old(self)@.insert(
                crate::seqs::bound(old(self).map@, key),
                key,
            ) && final(self)@.len() == old(self)@.len() + 1,
    {
        proof {
            crate::seqs::lemma_bound_exists(self.map@, key);
        }
        self.map.insert(key, ());
        proof {
            if !has_key(old(self).map@, key) {
                assert(self.map@.map_values(|e: (K, ())| e.0) =~= old(self).map@.map_values(
                    |e: (K, ())| e.0,
                ).insert(crate::seqs::bound(old(self).map@, key), key));
            }
        }
    }

    /// Remove the stored key matching `key`, returning it.
    pub fn remove(&mut self, key: &K) -> (r: Option<K>)
        requires
            old(self).wf(),
        ensures
            final(self).wf(),
            match r {
                Some(k) => {
                    &&& has_key(old(self).map@, *key)
                    &&& k == old(self)@[key_index(old(self).map@, *key)]
                    &&& final(self)@ =~= old(self)@.remove(key_index(old(self).map@, *key))
                },
                None => !has_key(old(self).map@, *key) && final(self)@ =~= old(self)@,
            },
    {
        match self.map.remove(key) {
            Some(kv) => Some(kv.0),
            None => None,
        }
    }

    /// Remove the key at rank `index`, returning it.
    pub fn remove_from_index(&mut self, index: usize) -> (r: Option<K>)
        requires
            old(self).wf(),
        ensures
            final(self).wf(),
            match r {
                Some(k) => {
                    &&& index < old(self)@.len()
                    &&& k == old(self)@[index as int]
                    &&& final(self)@ =~= old(self)@.remove(index as int)
                },
                None => index >= old(self)@.len() && final(self)@ =~= old(self)@,
            },
    {
        match self.map.remove_from_index(index) {
            Some(kv) => Some(kv.0),
            None => None,
        }
    }

    /// Split the set at `key`: keys at or above it move into the
    /// returned set.
    pub fn split_off(&mut self, key: &K) -> (r: IndexTreeSet<K>)
        requires
            old(self).wf(),
        ensures
            final(self).wf(),
            r.wf(),
            final(self)@ =~= old(self)@.take(crate::seqs::bound(old(self).map@, *key)),
            r@ =~= old(self)@.skip(crate::seqs::bound(old(self).map@, *key)),
    {
        proof {
            crate::seqs::lemma_bound_exists(self.map@, *key);
        }
        IndexTreeSet { map: self.map.split_off(key) }
    }

    /// Split the set at rank `index`: the keys at ranks `index` and
    /// above move into the returned set.
    pub fn split_off_from_index(&mut self, index: usize) -> (r: IndexTreeSet<K>)
        requires
            old(self).wf(),
        ensures
            final(self).wf(),
            r.wf(),
            index <= old(self)@.len() ==> final(self)@ =~= old(self)@.take(index as int) && r@
                =~= old(self)@.skip(index as int),
            index > old(self)@.len() ==> final(self)@ =~= old(self)@ && r@ =~= Seq::<K>::empty(),
    {
        IndexTreeSet { map: self.map.split_off_from_index(index) }
    }
}

impl<K, V> View for IndexTreeMap<K, V> {
    type V = Seq<(K, V)>;

    /// The model of the map: its entries in key order.
    open spec fn view(&self) -> Seq<(K, V)> {
        self.root.entries()
    }
}

impl<K: TotalOrder, V> IndexTreeMap<K, V> {
    /// Validity: the tree is well-formed and the cached size is the number
    /// of entries.
    pub open spec fn wf(self) -> bool {
        &&& self.root.wf()
        &&& self.size == self.root.entries().len()
    }
}

impl<K: TotalOrder, V> Default for IndexTreeMap<K, V> {
    /// The empty map.
    fn default() -> (r: Self)
        ensures
            r.wf(),
            r@ == Seq::<(K, V)>::empty(),
    {
        IndexTreeMap::new()
    }
}

impl<K: TotalOrder> Default for IndexTreeSet<K> {
    /// The empty set.
    fn default() -> (r: Self)
        ensures
            r.wf(),
            r@ =~= Seq::<K>::empty(),
    {
        IndexTreeSet::new()
    }
}

impl<K: TotalOrder, V> IndexTreeMap<K, V> {
    /// Makes a new, empty map.
    pub fn new() -> (r: IndexTreeMap<K, V>)
        ensures
            r.wf(),
            r@ == Seq::<(K, V)>::empty(),
    {
        IndexTreeMap { root: Node::new(), size: 0 }
    }

    /// Removes every entry.
    pub fn clear(&mut self)
        ensures
            final(self).wf(),
            final(self)@ == Seq::<(K, V)>::empty(),
    {
        self.root = Node::new();
        self.size = 0;
    }

    /// The number of entries in the map.
    pub fn len(&self) -> (r: usize)
        requires
            self.wf(),
        ensures
            r == self@.len(),
    {
        self.size
    }

    /// True when the map holds no entry.
    pub fn is_empty(&self) -> (r: bool)
        requires
            self.wf(),
        ensures
            r == (self@.len() == 0),
    {
        self.size == 0
    }

    /// True when some entry's key matches `key`.
    pub fn contains_key(&self, key: &K) -> (r: bool)
        requires
            self.wf(),
        ensures
            r == has_key(self@, *key),
    {
        self.root.get(key).is_some()
    }

    /// True when `index` is the rank of some entry.
    pub fn contains_index(&self, index: usize) -> (r: bool)
        requires
            self.wf(),
        ensures
            r == (index < self@.len()),
    {
        index < self.size
    }

    /// The value stored under `key`.
    pub fn get(&self, key: &K) -> (r: Option<&V>)
        requires
            self.wf(),
        ensures
            match r {
                Some(v) => has_key(self@, *key) && *v == self@[key_index(self@, *key)].1,
                None => !has_key(self@, *key),
            },
    {
        match self.root.get(key) {
            Some(item) => Some(item.1),
            None => None,
        }
    }

    /// A mutable reference to the value stored under `key`.  The model
    /// after the borrow ends carries whatever was written through it.
    pub fn get_mut(&mut self, key: &K) -> (r: Option<&mut V>)
        requires
            old(self).wf(),
        ensures
            match r {
                Some(v) => {
                    &&& has_key(old(self)@, *key)
                    &&& *v == old(self)@[key_index(old(self)@, *key)].1
                    &&& final(self).wf()
                    &&& final(self)@ == old(self)@.update(
                        key_index(old(self)@, *key),
                        (old(self)@[key_index(old(self)@, *key)].0, *final(v)),
                    )
                },
                None => !has_key(old(self)@, *key) && final(self).wf() && final(self)@ == old(
                    self,
                )@,
            },
    {
        self.root.get_mut(key)
    }

    /// A mutable reference to the value of the entry at rank `index`.
    pub fn get_mut_from_index(&mut self, index: usize) -> (r: Option<&mut V>)
        requires
            old(self).wf(),
        ensures
            match r {
                Some(v) => {
                    &&& index < old(self)@.len()
                    &&& *v == old(self)@[index as int].1
                    &&& final(self).wf()
                    &&& final(self)@ == old(self)@.update(
                        index as int,
                        (old(self)@[index as int].0, *final(v)),
                    )
                },
                None => index >= old(self)@.len() && final(self).wf() && final(self)@ == old(
                    self,
                )@,
            },
    {
        self.root.get_mut_from_index(index)
    }

    /// The stored key and value matching `key`.
    pub fn get_key_value(&self, key: &K) -> (r: Option<(&K, &V)>)
        requires
            self.wf(),
        ensures
            match r {
                Some(p) => has_key(self@, *key) && *p.0 == self@[key_index(self@, *key)].0
                    && *p.1 == self@[key_index(self@, *key)].1,
                None => !has_key(self@, *key),
            },
    {
        self.root.get(key)
    }

    /// The value of the entry at rank `index`.
    pub fn get_from_index(&self, index: usize) -> (r: Option<&V>)
        requires
            self.wf(),
        ensures
            match r {
                Some(v) => index < self@.len() && *v == self@[index as int].1,
                None => index >= self@.len(),
            },
    {
        if index < self.size {
            match self.root.get_from_index(index) {
                Some(item) => Some(item.1),
                None => None,
            }
        } else {
            None
        }
    }

    /// The key of the entry at rank `index`.
    pub fn get_key_from_index(&self, index: usize) -> (r: Option<&K>)
        requires
            self.wf(),
        ensures
            match r {
                Some(k) => index < self@.len() && *k == self@[index as int].0,
                None => index >= self@.len(),
            },
    {
        if index < self.size {
            match self.root.get_from_index(index) {
                Some(item) => Some(item.0),
                None => None,
            }
        } else {
            None
        }
    }

    /// The key and value of the entry at rank `index`.
    pub fn get_key_value_from_index(&self, index: usize) -> (r: Option<(&K, &V)>)
        requires
            self.wf(),
        ensures
            match r {
                Some(p) => index < self@.len() && *p.0 == self@[index as int].0 && *p.1
                    == self@[index as int].1,
                None => index >= self@.len(),
            },
    {
        if index < self.size {
            self.root.get_from_index(index)
        } else {
            None
        }
    }

    /// The rank of `key` in the map.
    pub fn get_index_from_key(&self, key: &K) -> (r: Option<usize>)
        requires
            self.wf(),
        ensures
            match r {
                Some(x) => has_key(self@, *key) && x == key_index(self@, *key),
                None => !has_key(self@, *key),
            },
    {
        self.root.get_index_from_key(key, 0)
    }

    /// The smallest key.
    pub fn get_first_key(&self) -> (r: Option<&K>)
        requires
            self.wf(),
        ensures
            match r {
                Some(k) => self@.len() > 0 && *k == self@[0].0,
                None => self@.len() == 0,
            },
    {
        match self.root.get_from_index(0) {
            Some(item) => Some(item.0),
            None => None,
        }
    }

    /// The value under the smallest key.
    pub fn get_first_value(&self) -> (r: Option<&V>)
        requires
            self.wf(),
        ensures
            match r {
                Some(v) => self@.len() > 0 && *v == self@[0].1,
                None => self@.len() == 0,
            },
    {
        match self.root.get_from_index(0) {
            Some(item) => Some(item.1),
            None => None,
        }
    }

    /// The entry with the smallest key.
    pub fn get_first_key_value(&self) -> (r: Option<(&K, &V)>)
        requires
            self.wf(),
        ensures
            match r {
                Some(p) => self@.len() > 0 && *p.0 == self@[0].0 && *p.1 == self@[0].1,
                None => self@.len() == 0,
            },
    {
        self.root.get_from_index(0)
    }

    /// The largest key.
    pub fn get_last_key(&self) -> (r: Option<&K>)
        requires
            self.wf(),
        ensures
            match r {
                Some(k) => self@.len() > 0 && *k == self@[self@.len() - 1].0,
                None => self@.len() == 0,
            },
    {
        if self.size == 0 {
            None
        } else {
            match self.root.get_from_index(self.size - 1) {
                Some(item) => Some(item.0),
                None => None,
            }
        }
    }

    /// The value under the largest key.
    pub fn get_last_value(&self) -> (r: Option<&V>)
        requires
            self.wf(),
        ensures
            match r {
                Some(v) => self@.len() > 0 && *v == self@[self@.len() - 1].1,
                None => self@.len() == 0,
            },
    {
        if self.size == 0 {
            None
        } else {
            match self.root.get_from_index(self.size - 1) {
                Some(item) => Some(item.1),
                None => None,
            }
        }
    }

    /// The entry with the largest key.
    pub fn get_last_key_value(&self) -> (r: Option<(&K, &V)>)
        requires
            self.wf(),
        ensures
            match r {
                Some(p) => self@.len() > 0 && *p.0 == self@[self@.len() - 1].0 && *p.1
                    == self@[self@.len() - 1].1,
                None => self@.len() == 0,
            },
    {
        if self.size == 0 {
            None
        } else {
            self.root.get_from_index(self.size - 1)
        }
    }
}

} // verus!
