//! Set of bit-string prefixes; sibling prefixes merge.
use vstd::prelude::*;
use crate::bits::{BitKey, is_prefix};
use crate::iter::{siblings, tiles};
use crate::tree::{
    DefaultCompare, Tree, TreeProperties, entry_keys, strict_prefix, pairs_view, opt_pairs_view,
    present,
};

verus! {

/// Set of bit-string prefixes: a bit string is a member when a member
/// prefix starts it.
pub struct PrefixSet {
    tree: Tree<(), (), DefaultCompare>,
}

/// The policy of a set: no inner values, no leaf values.
pub open spec fn set_properties() -> TreeProperties {
    TreeProperties { empty: true, leaf_empty: true, ignore_leafs: false }
}

impl PrefixSet {
    /// The invariant of the underlying tree.
    pub closed spec fn wf(&self) -> bool {
        self.tree.wf() && self.tree.properties() == set_properties()
    }

    /// Whether every bit string starting with `q` is a member.
    pub closed spec fn covers(&self, q: Seq<bool>) -> bool {
        self.tree.lookup(q) is Some
    }

    /// The underlying tree.
    pub closed spec fn spec_tree(&self) -> Tree<(), (), DefaultCompare> {
        self.tree
    }

    /// An empty set.
    pub fn new() -> (r: PrefixSet)
        ensures
            r.wf(),
            forall|q: Seq<bool>| !#[trigger] r.covers(q),
    {
        let r = PrefixSet { tree: Tree::new(set_properties_value()) };
        proof {
            assert forall|q: Seq<bool>| !#[trigger] r.covers(q) by {
                assert(r.tree.lookup(q).is_none());
            }
        }
        r
    }

    /// The underlying tree.
    pub fn tree(&self) -> (r: &Tree<(), (), DefaultCompare>)
        ensures
            *r == self.spec_tree(),
    {
        &self.tree
    }

    /// Add every bit string that starts with `key`.
    pub fn insert(&mut self, key: BitKey)
        requires
            old(self).wf(),
        ensures
            final(self).wf(),
            forall|q: Seq<bool>|
                !strict_prefix(q, key@) ==> #[trigger] final(self).covers(q) == (is_prefix(key@, q)
                    || old(self).covers(q)),
    {
        self.tree.set_leaf_value(key, ());
    }

    /// Remove every bit string that starts with `key`.
    pub fn remove(&mut self, key: BitKey)
        requires
            old(self).wf(),
        ensures
            final(self).wf(),
            forall|q: Seq<bool>|
                !strict_prefix(q, key@) ==> #[trigger] final(self).covers(q) == (!is_prefix(key@, q)
                    && old(self).covers(q)),
    {
        self.tree.remove(&key);
    }

    /// Whether every bit string starting with `key` is a member.
    pub fn contains(&self, key: &BitKey) -> (r: bool)
        requires
            self.wf(),
        ensures
            r == self.covers(key@),
    {
        match self.tree.get_most_specific(key) {
            Some(node) => node.get_leaf_value().is_some(),
            None => false,
        }
    }

    /// The member prefixes, in order.
    pub fn iter(&self) -> (r: Vec<BitKey>)
        ensures
            crate::iter::views(r@) == self.spec_tree().leaves().map_values(|e: (Seq<bool>, ())| e.0),
    {
        let leaves = self.tree.iter_leaf();
        let mut out: Vec<BitKey> = Vec::new();
        let mut i: usize = 0;
        while i < leaves.len()
            invariant
                i <= leaves.len(),
                pairs_view(leaves@) == self.tree.leaves(),
                crate::iter::views(out@) == pairs_view(leaves@).subrange(0, i as int).map_values(
                    |e: (Seq<bool>, ())| e.0,
                ),
            decreases leaves.len() - i,
        {
            let ghost before = crate::iter::views(out@);
            out.push(leaves[i].0.duplicate());
            proof {
                assert(crate::iter::views(out@).drop_last() =~= before);
                assert(pairs_view(leaves@)[i as int].0 == leaves@[i as int].0@);
            }
            i += 1;
            proof {
                let target = pairs_view(leaves@).subrange(0, i as int).map_values(
                    |e: (Seq<bool>, ())| e.0,
                );
                assert forall|j: int| 0 <= j < i implies crate::iter::views(out@)[j] == target[j] by {
                    if j < i - 1 {
                        assert(crate::iter::views(out@)[j] == before[j]);
                    }
                }
                assert(crate::iter::views(out@) =~= pairs_view(leaves@).subrange(
                    0,
                    i as int,
                ).map_values(|e: (Seq<bool>, ())| e.0));
            }
        }
        proof {
            assert(pairs_view(leaves@).subrange(0, leaves.len() as int) =~= pairs_view(leaves@));
        }
        out
    }

    /// The member prefixes in order, and between them the smallest list of
    /// prefixes covering the rest, each marked whether it is a member.
    pub fn iter_full(&self) -> (r: Vec<(BitKey, bool)>)
        requires
            self.wf(),
        ensures
            marked(flags_view(r@)) == self.spec_tree().leaves().map_values(|e: (Seq<bool>, ())| e.0),
            tiles(flags_view(r@).map_values(|e: (Seq<bool>, bool)| e.0), Seq::empty(), Seq::empty()),
            unmarked_minimal(flags_view(r@)),
    {
        let full = self.tree.iter_leaf_full();
        let mut out: Vec<(BitKey, bool)> = Vec::new();
        let mut i: usize = 0;
        proof {
            assert(flags_view(out@) =~= Seq::<(Seq<bool>, bool)>::empty());
            assert(opt_pairs_view(full@).subrange(0, 0) =~= Seq::<(Seq<bool>, Option<()>)>::empty());
        }
        while i < full.len()
            invariant
                i <= full.len(),
                out@.len() == i,
                forall|j: int|
                    0 <= j < i ==> #[trigger] flags_view(out@)[j] == (
                        opt_pairs_view(full@)[j].0,
                        opt_pairs_view(full@)[j].1 is Some,
                    ),
                marked(flags_view(out@)) == present(opt_pairs_view(full@).subrange(0, i as int)).map_values(
                    |e: (Seq<bool>, ())| e.0,
                ),
                flags_view(out@).map_values(|e: (Seq<bool>, bool)| e.0) == entry_keys(
                    opt_pairs_view(full@),
                ).subrange(0, i as int),
            decreases full.len() - i,
        {
            let ghost before = flags_view(out@);
            out.push((full[i].0.duplicate(), full[i].1.is_some()));
            proof {
                let sub = opt_pairs_view(full@).subrange(0, i + 1);
                assert(sub.drop_last() =~= opt_pairs_view(full@).subrange(0, i as int));
                assert(flags_view(out@).drop_last() =~= before);
                assert forall|j: int| 0 <= j < i + 1 implies #[trigger] flags_view(out@)[j] == (
                    opt_pairs_view(full@)[j].0,
                    opt_pairs_view(full@)[j].1 is Some,
                ) by {
                    if j < i {
                        assert(flags_view(out@)[j] == before[j]);
                    }
                }
                assert(marked(flags_view(out@)) =~= present(sub).map_values(
                    |e: (Seq<bool>, ())| e.0,
                ));
                let fk = flags_view(out@).map_values(|e: (Seq<bool>, bool)| e.0);
                let ek = entry_keys(opt_pairs_view(full@)).subrange(0, i + 1);
                assert forall|j: int| 0 <= j < i + 1 implies fk[j] == ek[j] by {
                    if j < i {
                        assert(fk[j] == before[j].0);
                    } else {
                        assert(fk[j] == full@[j].0@);
                    }
                }
                assert(fk =~= ek);
            }
            i += 1;
        }
        proof {
            assert(opt_pairs_view(full@).subrange(0, full.len() as int) =~= opt_pairs_view(full@));
            assert(present(opt_pairs_view(full@)) == self.tree.leaves());
            let fv = flags_view(out@);
            let ov = opt_pairs_view(full@);
            assert forall|j: int| 0 <= j < fv.len() - 1 && !(#[trigger] fv[j]).1 && !fv[j + 1].1 implies !siblings(
                fv[j].0,
                fv[j + 1].0,
            ) by {
                assert(fv[j] == (ov[j].0, ov[j].1 is Some));
                assert(fv[j + 1] == (ov[j + 1].0, ov[j + 1].1 is Some));
                assert(ov[j].1 is None && ov[j + 1].1 is None);
            }
            assert(entry_keys(opt_pairs_view(full@)).subrange(0, full.len() as int) =~= entry_keys(
                opt_pairs_view(full@),
            ));
        }
        out
    }
}

/// Keys and membership flags of a list of pairs, as views.
pub open spec fn flags_view(v: Seq<(BitKey, bool)>) -> Seq<(Seq<bool>, bool)> {
    v.map_values(|e: (BitKey, bool)| (e.0@, e.1))
}

/// No two neighbouring entries not marked as members are siblings: each
/// run of non-members is as short as it can be.
pub open spec fn unmarked_minimal(v: Seq<(Seq<bool>, bool)>) -> bool {
    forall|i: int|
        0 <= i < v.len() - 1 && !(#[trigger] v[i]).1 && !v[i + 1].1 ==> !siblings(v[i].0, v[i + 1].0)
}

/// The keys marked as members, in order.
pub open spec fn marked(v: Seq<(Seq<bool>, bool)>) -> Seq<Seq<bool>>
    decreases v.len(),
{
    if v.len() == 0 {
        Seq::empty()
    } else if v.last().1 {
        marked(v.drop_last()).push(v.last().0)
    } else {
        marked(v.drop_last())
    }
}

impl Default for PrefixSet {
    /// An empty set.
    fn default() -> (r: PrefixSet)
        ensures
            r.wf(),
            forall|q: Seq<bool>| !#[trigger] r.covers(q),
    {
        PrefixSet::new()
    }
}

/// The policy of a set, as a value.
fn set_properties_value() -> (r: TreeProperties)
    ensures
        r == set_properties(),
{
    TreeProperties { empty: true, leaf_empty: true, ignore_leafs: false }
}

} // verus!
