//! Forward cursors over the container.  Each one borrows the tree and
//! walks the key order by repeated rank lookups, one per step.

use vstd::prelude::*;

use crate::order::TotalOrder;
use crate::{IndexTreeMap, IndexTreeSet};

verus! {

/// Cursor over the entries of a map, in key order.
pub struct IndexTreeIterator<'a, K, V> {
    pub tree: &'a IndexTreeMap<K, V>,
    pub index: usize,
}

/// Cursor over the keys of a map, in key order.
pub struct IndexTreeKeys<'a, K, V> {
    pub tree: &'a IndexTreeMap<K, V>,
    pub index: usize,
}

/// Cursor over the values of a map, in key order.
pub struct IndexTreeValues<'a, K, V> {
    pub tree: &'a IndexTreeMap<K, V>,
    pub index: usize,
}

/// Cursor over the keys of a set, in order.
pub struct IndexTreeSetIterator<'a, K> {
    pub tree: &'a IndexTreeSet<K>,
    pub index: usize,
}

impl<'a, K: TotalOrder, V> IndexTreeIterator<'a, K, V> {
    /// The next entry in key order, if any.
    pub fn next(&mut self) -> (r: Option<(&'a K, &'a V)>)
        requires
            old(self).tree.wf(),
        ensures
            final(self).tree == old(self).tree,
            match r {
                Some(p) => {
                    &&& old(self).index < old(self).tree@.len()
                    &&& final(self).index == old(self).index + 1
                    &&& *p.0 == old(self).tree@[old(self).index as int].0
                    &&& *p.1 == old(self).tree@[old(self).index as int].1
                },
                None => old(self).index >= old(self).tree@.len() && final(self).index == old(
                    self,
                ).index,
            },
    {
        if self.index < self.tree.size {
            self.index = self.index + 1;
            self.tree.get_key_value_from_index(self.index - 1)
        } else {
            None
        }
    }
}

impl<'a, K: TotalOrder, V> IndexTreeKeys<'a, K, V> {
    /// The next key in order, if any.
    pub fn next(&mut self) -> (r: Option<&'a K>)
        requires
            old(self).tree.wf(),
        ensures
            final(self).tree == old(self).tree,
            match r {
                Some(k) => {
                    &&& old(self).index < old(self).tree@.len()
                    &&& final(self).index == old(self).index + 1
                    &&& *k == old(self).tree@[old(self).index as int].0
                },
                None => old(self).index >= old(self).tree@.len() && final(self).index == old(
                    self,
                ).index,
            },
    {
        if self.index < self.tree.size {
            self.index = self.index + 1;
            self.tree.get_key_from_index(self.index - 1)
        } else {
            None
        }
    }
}

impl<'a, K: TotalOrder, V> IndexTreeValues<'a, K, V> {
    /// The next value in key order, if any.
    pub fn next(&mut self) -> (r: Option<&'a V>)
        requires
            old(self).tree.wf(),
        ensures
            final(self).tree == old(self).tree,
            match r {
                Some(v) => {
                    &&& old(self).index < old(self).tree@.len()
                    &&& final(self).index == old(self).index + 1
                    &&& *v == old(self).tree@[old(self).index as int].1
                },
                None => old(self).index >= old(self).tree@.len() && final(self).index == old(
                    self,
                ).index,
            },
    {
        if self.index < self.tree.size {
            self.index = self.index + 1;
            self.tree.get_from_index(self.index - 1)
        } else {
            None
        }
    }
}

impl<'a, K: TotalOrder> IndexTreeSetIterator<'a, K> {
    /// The next key in order, if any.
    pub fn next(&mut self) -> (r: Option<&'a K>)
        requires
            old(self).tree.wf(),
        ensures
            final(self).tree == old(self).tree,
            match r {
                Some(k) => {
                    &&& old(self).index < old(self).tree@.len()
                    &&& final(self).index == old(self).index + 1
                    &&& *k == old(self).tree@[old(self).index as int]
                },
                None => old(self).index >= old(self).tree@.len() && final(self).index == old(
                    self,
                ).index,
            },
    {
        if self.index < self.tree.map.size {
            self.index = self.index + 1;
            self.tree.get_key_from_index(self.index - 1)
        } else {
            None
        }
    }
}

impl<K: TotalOrder, V> IndexTreeMap<K, V> {
    /// A cursor over the entries, sorted by key.
    pub fn iter(&self) -> (r: IndexTreeIterator<'_, K, V>)
        ensures
            r.tree == self,
            r.index == 0,
    {
        IndexTreeIterator { tree: self, index: 0 }
    }

    /// A cursor over the keys, in sorted order.
    pub fn keys(&self) -> (r: IndexTreeKeys<'_, K, V>)
        ensures
            r.tree == self,
            r.index == 0,
    {
        IndexTreeKeys { tree: self, index: 0 }
    }

    /// A cursor over the values, in key order.
    pub fn values(&self) -> (r: IndexTreeValues<'_, K, V>)
        ensures
            r.tree == self,
            r.index == 0,
    {
        IndexTreeValues { tree: self, index: 0 }
    }
}

impl<K: TotalOrder> IndexTreeSet<K> {
    /// A cursor over the keys, in order.
    pub fn iter(&self) -> (r: IndexTreeSetIterator<'_, K>)
        ensures
            r.tree == self,
            r.index == 0,
    {
        IndexTreeSetIterator { tree: self, index: 0 }
    }
}

} // verus!
