//! Map from bit-string prefixes to values; sibling prefixes with equal
//! values merge.
use vstd::prelude::*;
use crate::bits::{BitKey, is_prefix};
use crate::iter::tiles;
use crate::tree::{
    DefaultCompare, LeafValueComparer, Tree, TreeProperties, entry_keys, gaps_minimal, strict_prefix, pairs_view,
    opt_pairs_view, present,
};

verus! {

/// Map from bit-string prefixes to values: a bit string maps to the value
/// of the prefix that starts it.
pub struct PrefixMap<V> {
    tree: Tree<(), V, DefaultCompare>,
}

/// The policy of a map: no inner values, leaf values compared with `==`.
pub open spec fn map_properties() -> TreeProperties {
    TreeProperties { empty: true, leaf_empty: false, ignore_leafs: false }
}

impl<V: Copy> PrefixMap<V> where DefaultCompare: LeafValueComparer<V> {
    /// The invariant of the underlying tree.
    pub closed spec fn wf(&self) -> bool {
        self.tree.wf() && self.tree.properties() == map_properties()
    }

    /// The value for the bit strings starting with `q`, if one prefix covers
    /// them all.
    pub closed spec fn value_at(&self, q: Seq<bool>) -> Option<V> {
        self.tree.lookup(q)
    }

    /// The underlying tree.
    pub closed spec fn spec_tree(&self) -> Tree<(), V, DefaultCompare> {
        self.tree
    }

    /// An empty map.
    pub fn new() -> (r: PrefixMap<V>)
        ensures
            r.wf(),
            forall|q: Seq<bool>| #[trigger] r.value_at(q).is_none(),
    {
        let props = TreeProperties { empty: true, leaf_empty: false, ignore_leafs: false };
        PrefixMap { tree: Tree::new(props) }
    }

    /// The underlying tree.
    pub fn tree(&self) -> (r: &Tree<(), V, DefaultCompare>)
        ensures
            *r == self.spec_tree(),
    {
        &self.tree
    }

    /// Map every bit string starting with `prefix` to `value`.
    pub fn insert(&mut self, prefix: BitKey, value: V)
        requires
            old(self).wf(),
        ensures
            final(self).wf(),
            forall|q: Seq<bool>|
                !strict_prefix(q, prefix@) ==> #[trigger] final(self).value_at(q) == if is_prefix(
                    prefix@,
                    q,
                ) {
                    Some(value)
                } else {
                    old(self).value_at(q)
                },
    {
        self.tree.set_leaf_value(prefix, value);
    }

    /// Remove every bit string starting with `key`.
    pub fn remove(&mut self, key: BitKey)
        requires
            old(self).wf(),
        ensures
            final(self).wf(),
            forall|q: Seq<bool>|
                !strict_prefix(q, key@) ==> #[trigger] final(self).value_at(q) == if is_prefix(
                    key@,
                    q,
                ) {
                    None
                } else {
                    old(self).value_at(q)
                },
    {
        self.tree.remove(&key);
    }

    /// The value of the prefix that starts `key`, if there is one.
    pub fn get(&self, key: &BitKey) -> (r: Option<V>)
        requires
            self.wf(),
        ensures
            r == self.value_at(key@),
    {
        match self.tree.get_most_specific(key) {
            Some(node) => match node.get_leaf_value() {
                Some(v) => Some(*v),
                None => None,
            },
            None => None,
        }
    }

    /// The prefixes with their values, in order.
    pub fn iter(&self) -> (r: Vec<(BitKey, V)>)
        ensures
            pairs_view(r@) == self.spec_tree().leaves(),
    {
        self.tree.iter_leaf()
    }

    /// The prefixes with their values in order, and between them the
    /// smallest list of prefixes covering the rest, without a value.
    pub fn iter_full(&self) -> (r: Vec<(BitKey, Option<V>)>)
        requires
            self.wf(),
        ensures
            present(opt_pairs_view(r@)) == self.spec_tree().leaves(),
            tiles(entry_keys(opt_pairs_view(r@)), Seq::empty(), Seq::empty()),
            gaps_minimal(opt_pairs_view(r@)),
    {
        self.tree.iter_leaf_full()
    }
}

} // verus!
