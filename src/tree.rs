//! Path-compressed binary tree keyed by bit strings.
use vstd::prelude::*;
use crate::iter::{
    adjacent, end_before, iter_between, no_siblings, opt_view, same_high, same_low, siblings,
    start_after, tiles, lemma_strip_ones_shape, lemma_strip_zeros_shape, next_down, next_up,
    range_empty, strip_ones, strip_zeros, views,
};
use crate::bits::{
    BitKey, is_prefix, shared_len, lemma_shared_len_exact, lemma_shared_len_props,
    lemma_shared_len_prefix,
};

verus! {

/// How leaf values are compared to decide whether two sibling leaves merge.
///
/// A comparer may call only equal values equal: merged leaves keep one of
/// the two values, and every lookup must give the value that was set.
pub trait LeafValueComparer<V> {
    /// Whether the comparer calls `a` and `b` equal.
    spec fn equal(a: V, b: V) -> bool;

    /// Whether `a` and `b` are equal and their keys can merge.
    fn eq(a: &V, b: &V) -> (r: bool)
        ensures
            r == Self::equal(*a, *b),
    ;

    /// Only equal values are called equal.
    proof fn equal_is_identity(a: V, b: V)
        ensures
            Self::equal(a, b) ==> a == b,
    ;
}

/// Compare leaf values with `==`.
pub struct DefaultCompare;

/// Call no two leaf values equal.
pub struct NoEqual;

impl<V> LeafValueComparer<V> for NoEqual {
    open spec fn equal(a: V, b: V) -> bool {
        false
    }

    fn eq(a: &V, b: &V) -> (r: bool) {
        false
    }

    proof fn equal_is_identity(a: V, b: V) {
    }
}

impl LeafValueComparer<()> for DefaultCompare {
    open spec fn equal(a: (), b: ()) -> bool {
        a == b
    }

    fn eq(a: &(), b: &()) -> (r: bool) {
        true
    }

    proof fn equal_is_identity(a: (), b: ()) {
    }
}

impl LeafValueComparer<bool> for DefaultCompare {
    open spec fn equal(a: bool, b: bool) -> bool {
        a == b
    }

    fn eq(a: &bool, b: &bool) -> (r: bool) {
        *a == *b
    }

    proof fn equal_is_identity(a: bool, b: bool) {
    }
}

impl LeafValueComparer<u32> for DefaultCompare {
    open spec fn equal(a: u32, b: u32) -> bool {
        a == b
    }

    fn eq(a: &u32, b: &u32) -> (r: bool) {
        *a == *b
    }

    proof fn equal_is_identity(a: u32, b: u32) {
    }
}

impl LeafValueComparer<u64> for DefaultCompare {
    open spec fn equal(a: u64, b: u64) -> bool {
        a == b
    }

    fn eq(a: &u64, b: &u64) -> (r: bool) {
        *a == *b
    }

    proof fn equal_is_identity(a: u64, b: u64) {
    }
}

/// Policy of a tree: which values matter, and so which nodes may merge.
#[derive(Clone, Copy, Debug, PartialEq, Eq, Structural)]
pub struct TreeProperties {
    /// Inner nodes carry nothing: sibling leaves with equal values merge.
    pub empty: bool,
    /// Leaf values carry nothing: a key below a leaf is already covered.
    pub leaf_empty: bool,
    /// Leaves only mark presence.
    pub ignore_leafs: bool,
}

impl TreeProperties {
    /// `ignore_leafs` needs `leaf_empty`, and a tree with `empty` and
    /// `ignore_leafs` would hold nothing.
    pub open spec fn valid(&self) -> bool {
        &&& (self.ignore_leafs ==> self.leaf_empty)
        &&& !(self.empty && self.ignore_leafs)
    }
}

/// Where the search for a key stops.
#[derive(Clone, Copy, Debug, PartialEq, Eq, Structural)]
pub enum InsertPosition {
    /// At a leaf whose key is a strict prefix of the key
    BelowLeaf,
    /// At the node with exactly the key
    AlreadyExists,
    /// At a node whose key is not a prefix of the key, while its parent's is
    ReplaceNode,
}

/// Where the search for a key stops, with the node found there.
pub enum InsertPositionWith<N> {
    /// At a leaf whose key is a strict prefix of the key
    BelowLeaf(N),
    /// At the node with exactly the key
    AlreadyExists(N),
    /// At a node whose key is not a prefix of the key, while its parent's is
    ReplaceNode(N),
}

impl<N> InsertPositionWith<N> {
    /// The kind of position, without the node.
    pub open spec fn spec_position(&self) -> InsertPosition {
        match self {
            InsertPositionWith::BelowLeaf(_) => InsertPosition::BelowLeaf,
            InsertPositionWith::AlreadyExists(_) => InsertPosition::AlreadyExists,
            InsertPositionWith::ReplaceNode(_) => InsertPosition::ReplaceNode,
        }
    }

    /// The node found.
    pub open spec fn spec_node(&self) -> N {
        match self {
            InsertPositionWith::BelowLeaf(n) => *n,
            InsertPositionWith::AlreadyExists(n) => *n,
            InsertPositionWith::ReplaceNode(n) => *n,
        }
    }

    /// The kind of position, without the node.
    pub fn position(&self) -> (r: InsertPosition)
        ensures
            r == self.spec_position(),
    {
        match self {
            InsertPositionWith::BelowLeaf(_) => InsertPosition::BelowLeaf,
            InsertPositionWith::AlreadyExists(_) => InsertPosition::AlreadyExists,
            InsertPositionWith::ReplaceNode(_) => InsertPosition::ReplaceNode,
        }
    }

    /// The node found.
    pub fn into_node(self) -> (r: N)
        ensures
            r == self.spec_node(),
    {
        match self {
            InsertPositionWith::BelowLeaf(n) => n,
            InsertPositionWith::AlreadyExists(n) => n,
            InsertPositionWith::ReplaceNode(n) => n,
        }
    }
}

/// Node of a [`Tree`]: a leaf with a value, or an inner node with two
/// children that differ at the bit after the node's key.
pub struct Node<I, V> {
    key: BitKey,
    value: I,
    state: NodeState<I, V>,
}

enum NodeState<I, V> {
    InnerNode { left: Box<Node<I, V>>, right: Box<Node<I, V>> },
    Leaf { value: V },
}

/// `b` is a strictly longer extension of `a`.
pub open spec fn strict_prefix(a: Seq<bool>, b: Seq<bool>) -> bool {
    is_prefix(a, b) && a.len() < b.len()
}

/// No key of `m` lies strictly below `key`.
pub open spec fn none_below<I>(m: Map<Seq<bool>, I>, key: Seq<bool>) -> bool {
    forall|k: Seq<bool>| #[trigger] m.contains_key(k) ==> !strict_prefix(key, k)
}

/// Every key of `before` that does not start with `key` is in `after` with
/// the same value.
pub open spec fn kept_beside<I>(before: Map<Seq<bool>, I>, after: Map<Seq<bool>, I>, key: Seq<bool>) -> bool {
    forall|k: Seq<bool>|
        #[trigger] before.contains_key(k) && !is_prefix(key, k) ==> after.contains_key(k) && after[k]
            == before[k]
}

/// No key of `m` starts with `key`.
pub open spec fn none_from<I>(m: Map<Seq<bool>, I>, key: Seq<bool>) -> bool {
    forall|k: Seq<bool>| #[trigger] m.contains_key(k) ==> !is_prefix(key, k)
}

/// Keys in both maps have the same value in both.
pub open spec fn agree<I>(a: Map<Seq<bool>, I>, b: Map<Seq<bool>, I>) -> bool {
    forall|k: Seq<bool>| #[trigger] a.contains_key(k) && b.contains_key(k) ==> a[k] == b[k]
}

/// `f` calls `v` empty.
pub open spec fn judged_empty<I, F: Fn(&I) -> bool>(f: F, v: I) -> bool {
    f.ensures((&v,), true)
}

/// `f` gives one answer for each value.
pub open spec fn deterministic<I, F: Fn(&I) -> bool>(f: F) -> bool {
    forall|v: &I, a: bool, b: bool| f.ensures((v,), a) && f.ensures((v,), b) ==> a == b
}

/// Whether leaves with values `a` and `b` merge under policy `p`.
pub open spec fn merges<V, C: LeafValueComparer<V>>(p: TreeProperties, a: V, b: V) -> bool {
    p.empty && (p.leaf_empty || C::equal(a, b))
}

impl<I, V> Node<I, V> {
    /// The key of the node.
    pub closed spec fn key_view(&self) -> Seq<bool> {
        self.key@
    }

    /// The inner value of the node.
    pub closed spec fn inner_value(&self) -> I {
        self.value
    }

    /// The node is a leaf.
    pub closed spec fn spec_is_leaf(&self) -> bool {
        self.state is Leaf
    }

    /// The leaf value, if the node is a leaf.
    pub closed spec fn leaf_value(&self) -> Option<V> {
        match self.state {
            NodeState::Leaf { value } => Some(value),
            NodeState::InnerNode { .. } => None,
        }
    }

    /// Children keys extend the node's key by a 0 (left) and a 1 (right) at
    /// the position after it, in every node below.
    pub closed spec fn wf(&self) -> bool
        decreases self,
    {
        match self.state {
            NodeState::Leaf { .. } => true,
            NodeState::InnerNode { left, right } => {
                let n = self.key@.len();
                &&& strict_prefix(self.key@, left.key@)
                &&& strict_prefix(self.key@, right.key@)
                &&& !left.key@[n as int]
                &&& right.key@[n as int]
                &&& left.wf()
                &&& right.wf()
            },
        }
    }

    /// No inner node below has two leaf children one bit longer than itself
    /// whose values merge.
    pub closed spec fn compressed<C: LeafValueComparer<V>>(&self, p: TreeProperties) -> bool
        decreases self,
    {
        match self.state {
            NodeState::Leaf { .. } => true,
            NodeState::InnerNode { left, right } => {
                &&& !self.mergeable::<C>(p)
                &&& left.compressed::<C>(p)
                &&& right.compressed::<C>(p)
            },
        }
    }

    /// This inner node could become a single leaf.
    pub closed spec fn mergeable<C: LeafValueComparer<V>>(&self, p: TreeProperties) -> bool {
        match self.state {
            NodeState::Leaf { .. } => false,
            NodeState::InnerNode { left, right } => {
                &&& left.key@.len() == self.key@.len() + 1
                &&& right.key@.len() == self.key@.len() + 1
                &&& left.state is Leaf
                &&& right.state is Leaf
                &&& merges::<V, C>(p, left.leaf_value()->0, right.leaf_value()->0)
            },
        }
    }

    /// Value of the leaf whose key is a prefix of `q`, if there is one.
    pub closed spec fn lookup(&self, q: Seq<bool>) -> Option<V>
        decreases self,
    {
        if !is_prefix(self.key@, q) {
            None
        } else {
            match self.state {
                NodeState::Leaf { value } => Some(value),
                NodeState::InnerNode { left, right } => {
                    if q.len() <= self.key@.len() {
                        None
                    } else if q[self.key@.len() as int] {
                        right.lookup(q)
                    } else {
                        left.lookup(q)
                    }
                },
            }
        }
    }

    /// The deepest node whose key is a prefix of `q`, searching from here.
    pub closed spec fn most_specific(&self, q: Seq<bool>) -> Option<Node<I, V>>
        decreases self,
    {
        if !is_prefix(self.key@, q) {
            None
        } else {
            match self.state {
                NodeState::Leaf { .. } => Some(*self),
                NodeState::InnerNode { left, right } => {
                    let child = if q.len() <= self.key@.len() {
                        None
                    } else if q[self.key@.len() as int] {
                        right.most_specific(q)
                    } else {
                        left.most_specific(q)
                    };
                    match child {
                        Some(c) => Some(c),
                        None => Some(*self),
                    }
                },
            }
        }
    }

    /// Where the search for `q` stops below this node, and at which node.
    pub closed spec fn locate(&self, q: Seq<bool>) -> (InsertPosition, Node<I, V>)
        decreases self,
    {
        if !is_prefix(self.key@, q) {
            (InsertPosition::ReplaceNode, *self)
        } else if self.key@.len() == q.len() {
            (InsertPosition::AlreadyExists, *self)
        } else {
            match self.state {
                NodeState::Leaf { .. } => (InsertPosition::BelowLeaf, *self),
                NodeState::InnerNode { left, right } => {
                    if q[self.key@.len() as int] {
                        right.locate(q)
                    } else {
                        left.locate(q)
                    }
                },
            }
        }
    }

    /// Keys of the nodes from this one down whose keys are prefixes of `q`.
    pub closed spec fn path(&self, q: Seq<bool>) -> Seq<Seq<bool>>
        decreases self,
    {
        if !is_prefix(self.key@, q) {
            Seq::empty()
        } else {
            match self.state {
                NodeState::Leaf { .. } => seq![self.key@],
                NodeState::InnerNode { left, right } => {
                    if q.len() <= self.key@.len() {
                        seq![self.key@]
                    } else if q[self.key@.len() as int] {
                        seq![self.key@] + right.path(q)
                    } else {
                        seq![self.key@] + left.path(q)
                    }
                },
            }
        }
    }

    /// Inner values of all nodes below this one, by key.
    pub closed spec fn values(&self) -> Map<Seq<bool>, I>
        decreases self,
    {
        match self.state {
            NodeState::Leaf { .. } => map![self.key@ => self.value],
            NodeState::InnerNode { left, right } => left.values().union_prefer_right(
                right.values(),
            ).insert(self.key@, self.value),
        }
    }

    /// This subtree with the node keyed `at` (where the search for `at`
    /// finds it) replaced by `sub`.
    pub closed spec fn replaced(&self, at: Seq<bool>, sub: Node<I, V>) -> Node<I, V>
        decreases self,
    {
        if self.key@ == at {
            sub
        } else {
            match self.state {
                NodeState::Leaf { .. } => *self,
                NodeState::InnerNode { left, right } => {
                    if strict_prefix(self.key@, at) {
                        if at[self.key@.len() as int] {
                            Node {
                                key: self.key,
                                value: self.value,
                                state: NodeState::InnerNode {
                                    left,
                                    right: Box::new(right.replaced(at, sub)),
                                },
                            }
                        } else {
                            Node {
                                key: self.key,
                                value: self.value,
                                state: NodeState::InnerNode {
                                    left: Box::new(left.replaced(at, sub)),
                                    right,
                                },
                            }
                        }
                    } else {
                        *self
                    }
                },
            }
        }
    }

    /// The parent of the node keyed `at` in this subtree, if that node is
    /// below this one.
    pub closed spec fn parent_of(&self, at: Seq<bool>) -> Option<Node<I, V>>
        decreases self,
    {
        match self.state {
            NodeState::Leaf { .. } => None,
            NodeState::InnerNode { left, right } => {
                if strict_prefix(self.key@, at) {
                    let c = if at[self.key@.len() as int] {
                        *right
                    } else {
                        *left
                    };
                    if c.key@ == at {
                        Some(*self)
                    } else {
                        c.parent_of(at)
                    }
                } else {
                    None
                }
            },
        }
    }

    /// The child of this node on the side away from `at`.
    pub closed spec fn other_child(&self, at: Seq<bool>) -> Node<I, V> {
        if at[self.key@.len() as int] {
            self.spec_left()
        } else {
            self.spec_right()
        }
    }

    /// This node as a leaf holding `x`, with its key and inner value.
    pub closed spec fn as_leaf(&self, x: V) -> Node<I, V> {
        Node { key: self.key, value: self.value, state: NodeState::Leaf { value: x } }
    }

    /// `r` is this subtree after pruning at `key`: an inner node with an
    /// empty value loses an empty leaf child (left first) and the other child
    /// takes its place; an empty leaf goes with its empty parent, the sibling
    /// taking the parent's place; or, under a parent that is not empty, with
    /// an empty leaf sibling the parent becomes a leaf (keeping key and inner
    /// value).  Otherwise nothing changes.
    pub closed spec fn compacted<F: Fn(&I) -> bool>(&self, r: Node<I, V>, key: Seq<bool>, f: F) -> bool {
        let n = self.locate(key).1;
        if self.locate(key).0 == InsertPosition::AlreadyExists && judged_empty(f, n.value) {
            match n.state {
                NodeState::InnerNode { left, right } => {
                    if left.state is Leaf && judged_empty(f, left.value) {
                        r == self.replaced(key, *right)
                    } else if right.state is Leaf && judged_empty(f, right.value) {
                        r == self.replaced(key, *left)
                    } else {
                        r == *self
                    }
                },
                NodeState::Leaf { .. } => match self.parent_of(key) {
                    Some(p) => {
                        let sib = p.other_child(key);
                        if judged_empty(f, p.value) {
                            r == self.replaced(p.key@, sib)
                        } else if sib.state is Leaf && judged_empty(f, sib.value) {
                            exists|x: V| r == self.replaced(p.key@, p.as_leaf(x))
                        } else {
                            r == *self
                        }
                    },
                    None => r == *self,
                },
            }
        } else {
            r == *self
        }
    }

    /// This subtree is a chain for `key` from length `l` down to `stop`: at
    /// each level an inner node keyed by the first bits of `key`, whose child
    /// away from `key` is a leaf holding `side`, ending in a leaf keyed `key`
    /// holding `bottom`.
    pub closed spec fn is_chain(&self, l: nat, stop: nat, key: Seq<bool>, side: V, bottom: V) -> bool
        decreases stop - l,
    {
        if l >= stop {
            self.state is Leaf && self.key@ == key && self.leaf_value() == Some(bottom)
        } else {
            &&& self.key@ == key.subrange(0, l as int)
            &&& match self.state {
                NodeState::InnerNode { left, right } => {
                    let on = if key[l as int] { *right } else { *left };
                    let off = if key[l as int] { *left } else { *right };
                    &&& on.is_chain(l + 1, stop, key, side, bottom)
                    &&& off.state is Leaf
                    &&& off.key@ == key.subrange(0, l as int).push(!key[l as int])
                    &&& off.leaf_value() == Some(side)
                },
                NodeState::Leaf { .. } => false,
            }
        }
    }

    /// The search for `key` ends at a leaf whose key is a prefix of `key` and
    /// which already gives `key` the value `value`: it holds `value` at
    /// `key` itself, or lies above `key` with a value the policy takes as
    /// `value`.
    pub closed spec fn settled<C: LeafValueComparer<V>>(&self, key: Seq<bool>, value: V, p: TreeProperties) -> bool {
        let l = self.locate(key).1;
        &&& l.state is Leaf
        &&& is_prefix(l.key@, key)
        &&& (l.key@ == key ==> l.leaf_value() == Some(value))
        &&& (l.key@ != key ==> p.leaf_empty || C::equal(l.leaf_value()->0, value))
    }

    /// Leaves below this node, in order, with their values.
    pub closed spec fn leaves(&self) -> Seq<(Seq<bool>, V)>
        decreases self,
    {
        match self.state {
            NodeState::Leaf { value } => seq![(self.key@, value)],
            NodeState::InnerNode { left, right } => left.leaves() + right.leaves(),
        }
    }

    /// Keys of all nodes below this one, each node before its children.
    pub closed spec fn pre_order(&self) -> Seq<Seq<bool>>
        decreases self,
    {
        match self.state {
            NodeState::Leaf { .. } => seq![self.key@],
            NodeState::InnerNode { left, right } => seq![self.key@] + left.pre_order()
                + right.pre_order(),
        }
    }

    /// Keys of all nodes below this one, each node between its children.
    pub closed spec fn in_order(&self) -> Seq<Seq<bool>>
        decreases self,
    {
        match self.state {
            NodeState::Leaf { .. } => seq![self.key@],
            NodeState::InnerNode { left, right } => left.in_order() + seq![self.key@]
                + right.in_order(),
        }
    }

    /// Keys of all nodes below this one, each node after its children.
    pub closed spec fn post_order(&self) -> Seq<Seq<bool>>
        decreases self,
    {
        match self.state {
            NodeState::Leaf { .. } => seq![self.key@],
            NodeState::InnerNode { left, right } => left.post_order() + right.post_order()
                + seq![self.key@],
        }
    }

    /// Key of the node.
    pub fn get_key(&self) -> (r: &BitKey)
        ensures
            r@ == self.key_view(),
    {
        &self.key
    }

    /// Inner value of the node.
    pub fn get_value(&self) -> (r: &I)
        ensures
            *r == self.inner_value(),
    {
        &self.value
    }

    /// Whether the node is a leaf.
    pub fn is_leaf(&self) -> (r: bool)
        ensures
            r == self.spec_is_leaf(),
            r == self.leaf_value() is Some,
    {
        match self.state {
            NodeState::Leaf { .. } => true,
            NodeState::InnerNode { .. } => false,
        }
    }

    /// The leaf value, if the node is a leaf.
    pub fn get_leaf_value(&self) -> (r: Option<&V>)
        ensures
            match r {
                Some(v) => self.leaf_value() == Some(*v),
                None => self.leaf_value().is_none(),
            },
    {
        match &self.state {
            NodeState::Leaf { value } => Some(value),
            NodeState::InnerNode { .. } => None,
        }
    }

    /// The two children (left, right), unless the node is a leaf.
    pub fn get_children(&self) -> (r: Option<(&Node<I, V>, &Node<I, V>)>)
        ensures
            r.is_none() == self.spec_is_leaf(),
            r matches Some((a, b)) ==> *a == self.spec_left() && *b == self.spec_right(),
    {
        match &self.state {
            NodeState::InnerNode { left, right } => Some((&**left, &**right)),
            NodeState::Leaf { .. } => None,
        }
    }

    /// Left child (keys with a 0 after this key), for an inner node.
    pub closed spec fn spec_left(&self) -> Node<I, V> {
        match self.state {
            NodeState::InnerNode { left, .. } => *left,
            NodeState::Leaf { .. } => *self,
        }
    }

    /// Right child (keys with a 1 after this key), for an inner node.
    pub closed spec fn spec_right(&self) -> Node<I, V> {
        match self.state {
            NodeState::InnerNode { right, .. } => *right,
            NodeState::Leaf { .. } => *self,
        }
    }

    /// Left child, unless the node is a leaf.
    pub fn get_left(&self) -> (r: Option<&Node<I, V>>)
        ensures
            r.is_none() == self.spec_is_leaf(),
            r matches Some(a) ==> *a == self.spec_left(),
    {
        match &self.state {
            NodeState::InnerNode { left, .. } => Some(&**left),
            NodeState::Leaf { .. } => None,
        }
    }

    /// Right child, unless the node is a leaf.
    pub fn get_right(&self) -> (r: Option<&Node<I, V>>)
        ensures
            r.is_none() == self.spec_is_leaf(),
            r matches Some(a) ==> *a == self.spec_right(),
    {
        match &self.state {
            NodeState::InnerNode { right, .. } => Some(&**right),
            NodeState::Leaf { .. } => None,
        }
    }

    /// Child on side `side_bit` (false: left, true: right), unless the node
    /// is a leaf.
    pub fn get_child(&self, side_bit: bool) -> (r: Option<&Node<I, V>>)
        ensures
            r.is_none() == self.spec_is_leaf(),
            r matches Some(a) ==> *a == if side_bit {
                self.spec_right()
            } else {
                self.spec_left()
            },
    {
        match &self.state {
            NodeState::InnerNode { left, right } => {
                if side_bit {
                    Some(&**right)
                } else {
                    Some(&**left)
                }
            },
            NodeState::Leaf { .. } => None,
        }
    }
}


/// Two lookups agree: exactly, or only in presence where leaf values carry
/// nothing.
pub open spec fn lookup_match<V>(p: TreeProperties, a: Option<V>, b: Option<V>) -> bool {
    if p.leaf_empty {
        a.is_some() == b.is_some()
    } else {
        a == b
    }
}

/// The lookup of `q` after `value` was set for `key`, given the lookup before.
pub open spec fn inserted<V>(
    p: TreeProperties,
    key: Seq<bool>,
    value: V,
    before: Option<V>,
    after: Option<V>,
    q: Seq<bool>,
) -> bool {
    if is_prefix(key, q) {
        after is Some && (!p.leaf_empty ==> after == Some(value))
    } else {
        lookup_match(p, after, before)
    }
}

/// Lookup in a chain built by `linear_split`, for `q` below its top key.
pub open spec fn split_lookup<V>(
    parent_len: nat,
    stop: nat,
    key: Seq<bool>,
    side: V,
    bottom: Option<V>,
    q: Seq<bool>,
) -> Option<V> {
    if is_prefix(key, q) {
        bottom
    } else {
        let d = shared_len(key, q);
        if parent_len <= d < stop && d < q.len() {
            Some(side)
        } else {
            None
        }
    }
}

pub proof fn lemma_merges_symmetric<V, C: LeafValueComparer<V>>(p: TreeProperties, a: V, b: V)
    ensures
        merges::<V, C>(p, a, b) == merges::<V, C>(p, b, a),
{
    C::equal_is_identity(a, b);
    C::equal_is_identity(b, a);
}

pub proof fn lemma_prefix_trans(a: Seq<bool>, b: Seq<bool>, c: Seq<bool>)
    requires
        is_prefix(a, b),
        is_prefix(b, c),
    ensures
        is_prefix(a, c),
{
    assert(c.subrange(0, a.len() as int) =~= b.subrange(0, a.len() as int));
}

pub proof fn lemma_prefix_index(a: Seq<bool>, b: Seq<bool>, i: int)
    requires
        is_prefix(a, b),
        0 <= i < a.len(),
    ensures
        a[i] == b[i],
{
    assert(b.subrange(0, a.len() as int)[i] == b[i]);
}

impl<I: Copy + Default, V: Copy> Node<I, V> {
    fn new_leaf(key: BitKey, inner: I, value: V) -> (r: Node<I, V>)
        ensures
            r.key_view() == key@,
            r.inner_value() == inner,
            r.leaf_value() == Some(value),
            r.wf(),
            forall|q: Seq<bool>| #[trigger] r.lookup(q) == if is_prefix(key@, q) {
                Some(value)
            } else {
                None
            },
    {
        Node { key, value: inner, state: NodeState::Leaf { value } }
    }

    /// Inner node over `a` and `b`, which differ at position `shared_len`.
    fn new_inner_unknown_order(key: BitKey, inner: I, a: Node<I, V>, b: Node<I, V>) -> (r: Node<I, V>)
        requires
            strict_prefix(key@, a.key@),
            strict_prefix(key@, b.key@),
            a.key@[key@.len() as int] != b.key@[key@.len() as int],
            a.wf(),
            b.wf(),
        ensures
            r.wf(),
            r.key_view() == key@,
            r.inner_value() == inner,
            !r.spec_is_leaf(),
            a.key@[key@.len() as int] ==> r.spec_left() == b && r.spec_right() == a,
            !a.key@[key@.len() as int] ==> r.spec_left() == a && r.spec_right() == b,
            forall|q: Seq<bool>| #[trigger] r.lookup(q) == if is_prefix(a.key@, q) {
                a.lookup(q)
            } else {
                b.lookup(q)
            },
    {
        let n = key.len();
        let a_right = a.key.get(n);
        let r = if a_right {
            Node {
                key,
                value: inner,
                state: NodeState::InnerNode { left: Box::new(b), right: Box::new(a) },
            }
        } else {
            Node {
                key,
                value: inner,
                state: NodeState::InnerNode { left: Box::new(a), right: Box::new(b) },
            }
        };
        proof {
            assert forall|q: Seq<bool>| #[trigger] r.lookup(q) == if is_prefix(a.key@, q) {
                a.lookup(q)
            } else {
                b.lookup(q)
            } by {
                if is_prefix(a.key@, q) {
                    lemma_prefix_trans(r.key@, a.key@, q);
                    lemma_prefix_index(a.key@, q, n as int);
                } else if is_prefix(b.key@, q) {
                    lemma_prefix_trans(r.key@, b.key@, q);
                    lemma_prefix_index(b.key@, q, n as int);
                } else if is_prefix(r.key@, q) && q.len() > n {
                    if q[n as int] == a.key@[n as int] {
                        assert(!is_prefix(b.key@, q));
                    }
                }
            }
        }
        r
    }

    /// Chain of inner nodes for `key` from length `parent_len` down to
    /// `stop`; at each level the side not taken by `key` is a leaf holding
    /// `side_value`; below the chain stands `bottom`.
    #[verifier::rlimit(100)]
    #[verifier::spinoff_prover]
    fn linear_split<C: LeafValueComparer<V>>(
        parent_len: usize,
        top_inner: I,
        side_value: V,
        key: &BitKey,
        stop: usize,
        bottom: Node<I, V>,
        p: Ghost<TreeProperties>,
    ) -> (r: Node<I, V>)
        requires
            parent_len <= stop <= key@.len(),
            bottom.key_view() == key@,
            bottom.wf(),
            bottom.compressed::<C>(p@),
            parent_len < stop && key@.len() == stop && bottom.spec_is_leaf() ==> !merges::<V, C>(
                p@,
                side_value,
                bottom.leaf_value()->0,
            ) && !merges::<V, C>(p@, bottom.leaf_value()->0, side_value),
        ensures
            r.wf(),
            r.compressed::<C>(p@),
            r.key_view() == if parent_len < stop {
                key@.subrange(0, parent_len as int)
            } else {
                key@
            },
            parent_len < stop ==> !r.spec_is_leaf(),
            parent_len < stop ==> r.inner_value() == top_inner,
            parent_len == stop ==> r == bottom,
            r.values().contains_key(key@) || !bottom.values().contains_key(key@),
            bottom.spec_is_leaf() ==> r.is_chain(
                parent_len as nat,
                stop as nat,
                key@,
                side_value,
                bottom.leaf_value()->0,
            ),
            forall|q: Seq<bool>|
                is_prefix(key@.subrange(0, parent_len as int), q) ==> #[trigger] r.lookup(q)
                    == split_lookup(
                    parent_len as nat,
                    stop as nat,
                    key@,
                    side_value,
                    bottom.lookup(q),
                    q,
                ),
    {
        let mut node = bottom;
        let mut l: usize = stop;
        while l > parent_len
            invariant
                parent_len <= l <= stop <= key@.len(),
                node.wf(),
                node.compressed::<C>(p@),
                bottom.key_view() == key@,
                parent_len < stop && key@.len() == stop && bottom.spec_is_leaf() ==> !merges::<V, C>(
                    p@,
                    side_value,
                    bottom.leaf_value()->0,
                ) && !merges::<V, C>(p@, bottom.leaf_value()->0, side_value),
                node.key_view() == if l < stop {
                    key@.subrange(0, l as int)
                } else {
                    key@
                },
                l == stop ==> node == bottom,
                l < stop ==> !node.spec_is_leaf(),
                l < stop && l == parent_len ==> node.inner_value() == top_inner,
                bottom.spec_is_leaf() ==> node.is_chain(
                    l as nat,
                    stop as nat,
                    key@,
                    side_value,
                    bottom.leaf_value()->0,
                ),
                node.values().contains_key(key@) || !bottom.values().contains_key(key@),
                forall|q: Seq<bool>|
                    is_prefix(key@.subrange(0, l as int), q) ==> #[trigger] node.lookup(q)
                        == split_lookup(
                        l as nat,
                        stop as nat,
                        key@,
                        side_value,
                        bottom.lookup(q),
                        q,
                    ),
            decreases l,
        {
            l -= 1;
            let mut top = key.duplicate();
            top.clip(l);
            let mut other = key.duplicate();
            other.clip(l + 1);
            other.flip(l);
            let side = Node::new_leaf(other, I::default(), side_value);
            let ghost prev = node;
            proof {
                assert(prev.key@ =~= key@.subrange(0, prev.key@.len() as int) || prev.key@ == key@);
                assert(key@.subrange(0, prev.key@.len() as int).subrange(0, l as int) =~= key@.subrange(0, l as int));
                assert(key@.subrange(0, prev.key@.len() as int)[l as int] == key@[l as int]);
            }
            proof {
                if l + 1 < stop {
                    assert(!prev.spec_is_leaf());
                } else {
                    assert(prev == bottom);
                }
                assert(side.compressed::<C>(p@));
            }
            let inner = if l == parent_len {
                top_inner
            } else {
                I::default()
            };
            node = Node::new_inner_unknown_order(top, inner, node, side);
            proof {
                if bottom.spec_is_leaf() {
                    let on = if key@[l as int] { node.spec_right() } else { node.spec_left() };
                    let off = if key@[l as int] { node.spec_left() } else { node.spec_right() };
                    assert(on == prev);
                    assert(off == side);
                    assert(side.key@ =~= key@.subrange(0, l as int).push(!key@[l as int]));
                    assert(node.is_chain(l as nat, stop as nat, key@, side_value, bottom.leaf_value()->0));
                }
                assert(node.spec_left() == prev || node.spec_right() == prev);
                if l + 1 < stop {
                    assert(!node.mergeable::<C>(p@));
                } else if prev.spec_is_leaf() && prev.key@.len() == l + 1 {
                    assert(!merges::<V, C>(p@, side_value, prev.leaf_value()->0));
                    assert(!merges::<V, C>(p@, prev.leaf_value()->0, side_value));
                    assert(!node.mergeable::<C>(p@));
                }
                assert(node.compressed::<C>(p@));
                let nk = key@.subrange(0, l as int);
                assert forall|q: Seq<bool>|
                    is_prefix(nk, q) implies #[trigger] node.lookup(q) == split_lookup(
                    l as nat,
                    stop as nat,
                    key@,
                    side_value,
                    bottom.lookup(q),
                    q,
                ) by {
                    lemma_shared_len_props(key@, q);
                    lemma_shared_len_prefix(key@, q);
                    if is_prefix(prev.key@, q) {
                        if prev.key@ != key@ {
                            assert(is_prefix(key@.subrange(0, l + 1), q));
                        }
                        if !is_prefix(key@, q) {
                            assert(shared_len(key@, q) >= l + 1) by {
                                if shared_len(key@, q) < l + 1 {
                                    let d = shared_len(key@, q) as int;
                                    lemma_prefix_index(prev.key@, q, d);
                                    assert(prev.key@[d] == key@[d]);
                                }
                            }
                        }
                    } else {
                        let sk = key@.subrange(0, l as int).push(!key@[l as int]);
                        assert(side.key@ =~= sk);
                        if is_prefix(sk, q) {
                            lemma_prefix_index(sk, q, l as int);
                            assert(!is_prefix(key@, q)) by {
                                if is_prefix(key@, q) {
                                    lemma_prefix_index(key@, q, l as int);
                                }
                            }
                            assert forall|j: int| 0 <= j < l implies key@[j] == q[j] by {
                                lemma_prefix_index(nk, q, j);
                            }
                            lemma_shared_len_exact(key@, q, l as nat);
                        } else {
                            if q.len() > l {
                                assert(q[l as int] == key@[l as int]) by {
                                    if q[l as int] != key@[l as int] {
                                        assert(q.subrange(0, l + 1) =~= sk);
                                    }
                                }
                                assert(prev.key@.len() > l);
                                assert(shared_len(key@, q) >= l + 1) by {
                                    assert forall|j: int| 0 <= j < l + 1 implies key@[j] == q[j] by {
                                        if j < l {
                                            lemma_prefix_index(nk, q, j);
                                        }
                                    }
                                    if shared_len(key@, q) < l + 1 {
                                        let d = shared_len(key@, q) as int;
                                        assert(key@[d] == q[d]);
                                    }
                                }
                                if l + 1 == stop {
                                    assert(!is_prefix(key@, q)) by {
                                        if is_prefix(key@, q) {
                                            lemma_prefix_trans(prev.key@, key@, q);
                                        }
                                    }
                                } else {
                                    assert(!is_prefix(key@.subrange(0, l + 1), q));
                                    assert(key@.subrange(0, l + 1) =~= q.subrange(0, l + 1));
                                }
                            } else {
                                assert(shared_len(key@, q) <= q.len());
                                assert(!is_prefix(key@, q));
                            }
                        }
                    }
                }
            }
        }
        node
    }
}


impl<I: Copy + Default, V: Copy> Node<I, V> {
    /// Whether two sibling leaves with these values merge under `props`.
    fn leaf_value_eq<C: LeafValueComparer<V>>(props: TreeProperties, a: &V, b: &V) -> (r: bool)
        ensures
            r == merges::<V, C>(props, *a, *b),
    {
        props.empty && (props.leaf_empty || C::eq(a, b))
    }

    /// Parent of this node and a new leaf `key`, keyed by their shared
    /// prefix of length `shared_prefix_len`.
    fn insert_leaf_sibling(self, shared_prefix_len: usize, key: BitKey, value: V) -> (r: Node<I, V>)
        requires
            self.wf(),
            shared_prefix_len < self.key@.len(),
            shared_prefix_len < key@.len(),
            self.key@.subrange(0, shared_prefix_len as int) == key@.subrange(
                0,
                shared_prefix_len as int,
            ),
            self.key@[shared_prefix_len as int] != key@[shared_prefix_len as int],
        ensures
            r.wf(),
            r.key_view() == key@.subrange(0, shared_prefix_len as int),
            !r.spec_is_leaf(),
            r.spec_left() == self || r.spec_right() == self,
            r.spec_left() == self ==> r.spec_right().key_view() == key@ && r.spec_right().leaf_value()
                == Some(value),
            r.spec_right() == self ==> r.spec_left().key_view() == key@ && r.spec_left().leaf_value()
                == Some(value),
            (if key@[shared_prefix_len as int] {
                r.spec_right()
            } else {
                r.spec_left()
            }).locate(key@) == (InsertPosition::AlreadyExists, if key@[shared_prefix_len as int] {
                r.spec_right()
            } else {
                r.spec_left()
            }),
            (if key@[shared_prefix_len as int] {
                r.spec_right()
            } else {
                r.spec_left()
            }).spec_is_leaf(),
            forall|q: Seq<bool>| #[trigger] r.lookup(q) == if is_prefix(key@, q) {
                Some(value)
            } else {
                self.lookup(q)
            },
    {
        let mut top = self.key.duplicate();
        top.clip(shared_prefix_len);
        let ghost k = key@;
        let ghost sk = self.key@;
        let leaf = Node::new_leaf(key, I::default(), value);
        proof {
            assert(top@ =~= k.subrange(0, shared_prefix_len as int));
            assert(is_prefix(top@, sk));
            assert(is_prefix(top@, k));
        }
        let ghost me = self;
        let ghost lf = leaf;
        proof {
            assert(lf.key@.subrange(0, k.len() as int) =~= k);
            assert(lf.locate(k) == (InsertPosition::AlreadyExists, lf));
        }
        let r = Node::new_inner_unknown_order(top, I::default(), self, leaf);
        proof {
            assert forall|q: Seq<bool>| #[trigger] r.lookup(q) == if is_prefix(k, q) {
                Some(value)
            } else {
                me.lookup(q)
            } by {
                if is_prefix(sk, q) && is_prefix(k, q) {
                    lemma_prefix_index(sk, q, shared_prefix_len as int);
                    lemma_prefix_index(k, q, shared_prefix_len as int);
                }
            }
        }
        r
    }

    /// A leaf holding `value`, keyed by the first `key_len` bits of this key.
    fn clip_to_value(self, key_len: usize, value: V) -> (r: Node<I, V>)
        requires
            key_len <= self.key@.len(),
        ensures
            r.wf(),
            r.key_view() == self.key@.subrange(0, key_len as int),
            r.leaf_value() == Some(value),
            r.spec_is_leaf(),
            key_len == self.key@.len() ==> r.inner_value() == self.inner_value(),
            key_len == self.key@.len() && self.leaf_value() == Some(value) ==> r == self,
            forall|q: Seq<bool>| #[trigger] r.lookup(q) == if is_prefix(
                self.key@.subrange(0, key_len as int),
                q,
            ) {
                Some(value)
            } else {
                None
            },
    {
        let Node { key, value: inner, state: _ } = self;
        let mut key = key;
        // a shorter key makes a new node: its inner value starts afresh
        let inner = if key_len != key.len() {
            key.clip(key_len);
            I::default()
        } else {
            inner
        };
        proof {
            assert(key@ =~= self.key@.subrange(0, key_len as int));
        }
        Node { key, value: inner, state: NodeState::Leaf { value } }
    }

    /// Set `value` for `key` at the node where the search for `key` stops:
    /// the key is at or above this node, diverges from it, or lies below
    /// this leaf.
    fn insert_leaf_value<C: LeafValueComparer<V>>(
        self,
        key: BitKey,
        value: V,
        props: TreeProperties,
    ) -> (r: Node<I, V>)
        requires
            self.wf(),
            self.compressed::<C>(props),
            strict_prefix(self.key@, key@) ==> self.spec_is_leaf(),
        ensures
            r.wf(),
            r.compressed::<C>(props),
            r.key_view() == self.key@.subrange(0, shared_len(self.key@, key@) as int),
            forall|q: Seq<bool>|
                !strict_prefix(q, key@) ==> inserted(
                    props,
                    key@,
                    value,
                    self.lookup(q),
                    #[trigger] r.lookup(q),
                    q,
                ),
            r.settled::<C>(key@, value, props),
            self.settled::<C>(key@, value, props) ==> r == self,
            none_below(r.values(), key@),
            !props.empty ==> kept_beside(self.values(), r.values(), key@),
            is_prefix(key@, self.key@) ==> r.spec_is_leaf() && r.leaf_value() == Some(value) && (
            key@ == self.key@ ==> r.inner_value() == self.inner_value()),
            strict_prefix(self.key@, key@) && (props.leaf_empty || C::equal(
                self.leaf_value()->0,
                value,
            )) ==> r == self,
            strict_prefix(self.key@, key@) && !(props.leaf_empty || C::equal(
                self.leaf_value()->0,
                value,
            )) ==> r.is_chain(
                self.key@.len(),
                key@.len(),
                key@,
                self.leaf_value()->0,
                value,
            ) && r.inner_value() == self.inner_value(),
    {
        let key_len = key.len();
        let self_key_len = self.key.len();
        let shared_prefix_len = self.key.shared_prefix_len(&key);
        let ghost k = key@;
        let ghost sk = self.key@;
        let ghost me = self;
        proof {
            lemma_shared_len_props(sk, k);
            lemma_shared_len_prefix(sk, k);
            lemma_shared_len_prefix(k, sk);
            assert(sk.subrange(0, shared_prefix_len as int) =~= k.subrange(0, shared_prefix_len as int));
        }
        if shared_prefix_len == key_len {
            // the key is this node's key or above it: replace the subtree
            let r = self.clip_to_value(shared_prefix_len, value);
            proof {
                assert(k =~= sk.subrange(0, shared_prefix_len as int));
                assert forall|q: Seq<bool>| !strict_prefix(q, k) implies inserted(
                    props,
                    k,
                    value,
                    me.lookup(q),
                    #[trigger] r.lookup(q),
                    q,
                ) by {
                    if !is_prefix(k, q) && is_prefix(sk, q) {
                        lemma_prefix_trans(k, sk, q);
                    }
                }
                lemma_values_keys(me);
                assert forall|kk: Seq<bool>| #[trigger] me.values().contains_key(kk) implies is_prefix(
                    k,
                    kk,
                ) by {
                    lemma_prefix_trans(k, sk, kk);
                }
                assert(r.values() =~= map![r.key@ => r.value]);
            }
            return r;
        }
        if shared_prefix_len < self_key_len {
            // the key diverges from this node's key: new parent for both
            if props.empty && self_key_len == key_len && self_key_len == shared_prefix_len + 1 {
                // both would be leaves one bit below the parent: merge at once
                let merge = match self.get_leaf_value() {
                    Some(old_value) => Self::leaf_value_eq::<C>(props, &value, old_value),
                    None => false,
                };
                if merge {
                    let r = self.clip_to_value(shared_prefix_len, value);
                    proof {
                        C::equal_is_identity(value, me.leaf_value()->0);
                        assert(r.key@.subrange(0, r.key@.len() as int) =~= r.key@);
                        assert(is_prefix(r.key@, k));
                        assert(r.locate(k) == (InsertPosition::BelowLeaf, r));
                        assert forall|q: Seq<bool>| !strict_prefix(q, k) implies inserted(
                            props,
                            k,
                            value,
                            me.lookup(q),
                            #[trigger] r.lookup(q),
                            q,
                        ) by {
                            let n = shared_prefix_len as int;
                            if is_prefix(r.key@, q) && !is_prefix(k, q) && !is_prefix(sk, q) {
                                if q.len() > n {
                                    if q[n] == k[n] {
                                        assert(q.subrange(0, k.len() as int) =~= k);
                                    } else {
                                        assert(q.subrange(0, sk.len() as int) =~= sk);
                                    }
                                } else {
                                    assert(q =~= k.subrange(0, q.len() as int));
                                }
                            }
                        }
                    }
                    return r;
                }
            }
            let r = self.insert_leaf_sibling(shared_prefix_len, key, value);
            proof {
                lemma_merges_symmetric::<V, C>(props, value, me.leaf_value()->0);
                let other = if r.spec_left() == me { r.spec_right() } else { r.spec_left() };
                assert(other.compressed::<C>(props));
                if me.spec_is_leaf() && sk.len() == shared_prefix_len + 1 && k.len() == shared_prefix_len
                    + 1 {
                    assert(!merges::<V, C>(props, value, me.leaf_value()->0));
                }
                assert(!r.mergeable::<C>(props));
                assert(r.compressed::<C>(props));
                assert forall|q: Seq<bool>| !strict_prefix(q, k) implies inserted(
                    props,
                    k,
                    value,
                    me.lookup(q),
                    #[trigger] r.lookup(q),
                    q,
                ) by {
                }
                let lf = if k[shared_prefix_len as int] { r.spec_right() } else { r.spec_left() };
                assert(r.locate(k) == lf.locate(k));
                assert(lf.key@ == k);
                lemma_values_sibling(me, r, k);
                lemma_values_keys(me);
                lemma_values_keys(lf);
                let n = shared_prefix_len as int;
                assert forall|kk: Seq<bool>| #[trigger] r.values().contains_key(kk) implies !strict_prefix(
                    k,
                    kk,
                ) by {
                    if me.values().contains_key(kk) && strict_prefix(k, kk) {
                        lemma_prefix_index(sk, kk, n);
                        lemma_prefix_index(k, kk, n);
                    }
                    if lf.values().contains_key(kk) {
                        assert(lf.values() =~= map![lf.key@ => lf.value]);
                    }
                }
            }
            return r;
        }
        // this node's key is a strict prefix of the key, and the node a leaf
        let old_value = match &self.state {
            NodeState::Leaf { value } => *value,
            NodeState::InnerNode { .. } => {
                proof {
                    assert(false);
                }
                value
            },
        };
        if props.leaf_empty {
            // presence is all that counts, and the key is covered already
            proof {
                assert forall|q: Seq<bool>| !strict_prefix(q, k) implies inserted(
                    props,
                    k,
                    value,
                    me.lookup(q),
                    #[trigger] me.lookup(q),
                    q,
                ) by {
                    if is_prefix(k, q) {
                        lemma_prefix_trans(sk, k, q);
                    }
                }
                assert(sk.subrange(0, shared_prefix_len as int) =~= sk);
            }
            return self;
        }
        if C::eq(&old_value, &value) {
            // the covering leaf holds this value already
            proof {
                C::equal_is_identity(old_value, value);
                assert forall|q: Seq<bool>| !strict_prefix(q, k) implies inserted(
                    props,
                    k,
                    value,
                    me.lookup(q),
                    #[trigger] me.lookup(q),
                    q,
                ) by {
                    if is_prefix(k, q) {
                        lemma_prefix_trans(sk, k, q);
                    }
                }
                assert(sk.subrange(0, shared_prefix_len as int) =~= sk);
            }
            return self;
        }
        self.insert_sub_leaf::<C>(key, value, old_value, props)
    }

    /// Replace this leaf by a chain down to a new leaf `key`, the other side
    /// at each level keeping the old value.
    fn insert_sub_leaf<C: LeafValueComparer<V>>(
        self,
        key: BitKey,
        value: V,
        old_value: V,
        props: TreeProperties,
    ) -> (r: Node<I, V>)
        requires
            self.leaf_value() == Some(old_value),
            strict_prefix(self.key@, key@),
            !props.leaf_empty,
            !C::equal(old_value, value),
        ensures
            r.wf(),
            r.compressed::<C>(props),
            r.key_view() == self.key@,
            forall|q: Seq<bool>|
                !strict_prefix(q, key@) ==> inserted(
                    props,
                    key@,
                    value,
                    self.lookup(q),
                    #[trigger] r.lookup(q),
                    q,
                ),
            r.is_chain(self.key@.len(), key@.len(), key@, old_value, value),
            r.inner_value() == self.inner_value(),
            r.settled::<C>(key@, value, props),
            none_below(r.values(), key@),
            kept_beside(self.values(), r.values(), key@),
    {
        let self_key_len = self.key.len();
        let ghost k = key@;
        let ghost sk = self.key@;
        let ghost me = self;
        let key_len = key.len();
        let bottom_key = key.duplicate();
        let bottom = Node::new_leaf(bottom_key, I::default(), value);
        proof {
            lemma_merges_symmetric::<V, C>(props, old_value, value);
            assert(k.subrange(0, self_key_len as int) =~= sk);
        }
        // the top of the chain takes the place of this node and keeps its inner value
        let ghost me_value = self.value;
        let r = Node::linear_split::<C>(
            self_key_len,
            self.value,
            old_value,
            &key,
            key_len,
            bottom,
            Ghost(props),
        );
        proof {
            lemma_chain_locate(r, self_key_len as nat, k, old_value, value);
            lemma_chain_values(r, self_key_len as nat, k, old_value, value);
            lemma_values_keys(r);
            assert(me.values() =~= map![sk => me.value]);
            assert forall|q: Seq<bool>| !strict_prefix(q, k) implies inserted(
                props,
                k,
                value,
                me.lookup(q),
                #[trigger] r.lookup(q),
                q,
            ) by {
                lemma_shared_len_props(k, q);
                lemma_shared_len_prefix(k, q);
                lemma_shared_len_prefix(q, k);
                if is_prefix(sk, q) {
                    if !is_prefix(k, q) {
                        let d = shared_len(k, q) as int;
                        if d >= q.len() {
                            assert(is_prefix(q, k));
                        }
                        if d < self_key_len {
                            lemma_prefix_index(sk, q, d);
                            lemma_prefix_index(sk, k, d);
                        }
                    }
                } else if is_prefix(k, q) {
                    lemma_prefix_trans(sk, k, q);
                }
            }
        }
        r
    }

    /// Turn an inner node whose two children are leaves one bit longer with
    /// merging values into a leaf; true when the node is a leaf afterwards.
    fn compress<C: LeafValueComparer<V>>(self, props: TreeProperties) -> (r: (Node<I, V>, bool))
        requires
            self.wf(),
        ensures
            r.0.wf(),
            r.1 == r.0.spec_is_leaf(),
            r.0.key_view() == self.key@,
            self.mergeable::<C>(props) ==> r.0.spec_is_leaf() && r.0.leaf_value()
                == self.spec_left().leaf_value() && r.0.inner_value() == self.inner_value(),
            !self.mergeable::<C>(props) ==> r.0 == self,
            forall|q: Seq<bool>|
                q != self.key@ ==> lookup_match(props, #[trigger] r.0.lookup(q), self.lookup(q)),
    {
        let self_key_len = self.key.len();
        let merged: Option<V> = match &self.state {
            NodeState::InnerNode { left, right } => {
                if left.key.len() != self_key_len + 1 || right.key.len() != self_key_len + 1 {
                    None
                } else {
                    match (&left.state, &right.state) {
                        (NodeState::Leaf { value: lv }, NodeState::Leaf { value: rv }) => {
                            if Self::leaf_value_eq::<C>(props, lv, rv) {
                                Some(*lv)
                            } else {
                                None
                            }
                        },
                        _ => None,
                    }
                }
            },
            NodeState::Leaf { .. } => {
                return (self, true);
            },
        };
        let ghost me = self;
        match merged {
            Some(v) => {
                let Node { key, value: inner, state: _ } = self;
                let r = Node::new_leaf(key, inner, v);
                proof {
                    let lv = me.spec_left().leaf_value()->0;
                    let rv = me.spec_right().leaf_value()->0;
                    C::equal_is_identity(lv, rv);
                    let lk = me.spec_left().key@;
                    let rk = me.spec_right().key@;
                    assert(strict_prefix(me.key@, lk) && strict_prefix(me.key@, rk));
                    assert(!lk[me.key@.len() as int] && rk[me.key@.len() as int]);
                    assert forall|q: Seq<bool>| q != me.key@ implies lookup_match(
                        props,
                        #[trigger] r.lookup(q),
                        me.lookup(q),
                    ) by {
                        let n = me.key@.len() as int;
                        if is_prefix(me.key@, q) {
                            if q.len() <= n {
                                assert(q =~= me.key@);
                            } else {
                                assert forall|j: int| 0 <= j < n implies q[j] == lk[j] && q[j]
                                    == rk[j] by {
                                    lemma_prefix_index(me.key@, q, j);
                                    lemma_prefix_index(me.key@, lk, j);
                                    lemma_prefix_index(me.key@, rk, j);
                                }
                                if q[n] {
                                    assert(q.subrange(0, n + 1) =~= rk);
                                    assert(me.lookup(q) == me.spec_right().lookup(q));
                                } else {
                                    assert(q.subrange(0, n + 1) =~= lk);
                                    assert(me.lookup(q) == me.spec_left().lookup(q));
                                }
                            }
                        }
                    }
                }
                (r, true)
            },
            None => (self, false),
        }
    }

    /// Set `value` for `key` in the subtree of this node; merge nodes on the
    /// way back up as long as merging succeeds.  The flag asks the parent to
    /// try merging.
    fn insert_rec<C: LeafValueComparer<V>>(self, key: BitKey, value: V, props: TreeProperties) -> (r: (
        Node<I, V>,
        bool,
    ))
        requires
            self.wf(),
            self.compressed::<C>(props),
        ensures
            r.0.wf(),
            r.0.compressed::<C>(props),
            !r.1 ==> !r.0.spec_is_leaf(),
            r.0.settled::<C>(key@, value, props),
            self.settled::<C>(key@, value, props) ==> r.0 == self,
            none_below(r.0.values(), key@),
            !props.empty ==> kept_beside(self.values(), r.0.values(), key@),
            r.0.key_view() == self.key@.subrange(0, shared_len(self.key@, key@) as int),
            forall|q: Seq<bool>|
                !strict_prefix(q, key@) ==> inserted(
                    props,
                    key@,
                    value,
                    self.lookup(q),
                    #[trigger] r.0.lookup(q),
                    q,
                ),
        decreases self,
    {
        let self_key_len = self.key.len();
        let shared_prefix_len = self.key.shared_prefix_len(&key);
        let ghost k = key@;
        let ghost sk = self.key@;
        let ghost me = self;
        proof {
            lemma_shared_len_props(sk, k);
            lemma_shared_len_prefix(sk, k);
        }
        if shared_prefix_len < self_key_len || self_key_len == key.len() || self.is_leaf() {
            return (self.insert_leaf_value::<C>(key, value, props), true);
        }
        let side = key.get(self_key_len);
        let Node { key: node_key, value: inner, state } = self;
        match state {
            NodeState::InnerNode { left, right } => {
                let ghost old_left = *left;
                let ghost old_right = *right;
                let ghost old_child_l = *left;
                let ghost old_child_r = *right;
                let (new_left, new_right, flag) = if side {
                    let (c, f) = (*right).insert_rec::<C>(key, value, props);
                    (left, Box::new(c), f)
                } else {
                    let (c, f) = (*left).insert_rec::<C>(key, value, props);
                    (Box::new(c), right, f)
                };
                let node = Node {
                    key: node_key,
                    value: inner,
                    state: NodeState::InnerNode { left: new_left, right: new_right },
                };
                proof {
                    let n = self_key_len as int;
                    let child = if side { old_right } else { old_left };
                    lemma_shared_len_props(child.key@, k);
                    assert(shared_len(child.key@, k) >= n + 1) by {
                        assert forall|j: int| 0 <= j < n + 1 implies child.key@[j] == k[j] by {
                            if j < n {
                                lemma_prefix_index(sk, child.key@, j);
                                lemma_prefix_index(sk, k, j);
                            }
                        }
                        if shared_len(child.key@, k) < n + 1 {
                            let d = shared_len(child.key@, k) as int;
                            assert(child.key@[d] == k[d]);
                        }
                    }
                    let ck = child.key@.subrange(0, shared_len(child.key@, k) as int);
                    assert(ck.subrange(0, n) =~= sk) by {
                        assert(child.key@.subrange(0, n) =~= sk);
                    }
                    assert(ck[n] == child.key@[n]);
                    assert(node.wf());
                    assert(sk.subrange(0, shared_prefix_len as int) =~= sk);
                    assert forall|q: Seq<bool>| !strict_prefix(q, k) implies inserted(
                        props,
                        k,
                        value,
                        me.lookup(q),
                        #[trigger] node.lookup(q),
                        q,
                    ) by {
                        let new_child = if side { *new_right } else { *new_left };
                        let other = if side { old_left } else { old_right };
                        if is_prefix(k, q) {
                            lemma_prefix_trans(sk, k, q);
                            lemma_prefix_index(k, q, n);
                            assert(node.lookup(q) == new_child.lookup(q));
                            assert(inserted(props, k, value, child.lookup(q), new_child.lookup(q), q));
                        } else if is_prefix(sk, q) && q.len() > n && q[n] != k[n] {
                            assert(node.lookup(q) == other.lookup(q));
                            assert(me.lookup(q) == other.lookup(q));
                        } else if is_prefix(sk, q) && q.len() > n {
                            assert(node.lookup(q) == new_child.lookup(q));
                            assert(me.lookup(q) == child.lookup(q));
                            assert(inserted(props, k, value, child.lookup(q), new_child.lookup(q), q));
                        } else if is_prefix(sk, q) {
                            assert(q =~= sk);
                            assert(strict_prefix(q, k));
                        }
                    }
                }
                proof {
                    let child = if side { old_child_r } else { old_child_l };
                    assert(me.locate(k) == child.locate(k));
                    let nc = if side { node.spec_right() } else { node.spec_left() };
                    assert(node.locate(k) == nc.locate(k));
                    if me.settled::<C>(k, value, props) {
                        assert(nc == child);
                        assert(node == me);
                    }
                    lemma_insert_step_values(me, node, k, side, !props.empty);
                }
                if flag && props.empty {
                    let r = node.compress::<C>(props);
                    proof {
                        if me.settled::<C>(k, value, props) {
                            assert(!me.mergeable::<C>(props));
                        }
                        if node.mergeable::<C>(props) {
                            let nc = if side { node.spec_right() } else { node.spec_left() };
                            let lv = node.spec_left().leaf_value()->0;
                            let rv = node.spec_right().leaf_value()->0;
                            C::equal_is_identity(lv, rv);
                            C::equal_is_identity(nc.leaf_value()->0, value);
                            assert(nc.locate(k).1 == nc);
                            assert(r.0.key@.subrange(0, r.0.key@.len() as int) =~= r.0.key@);
                            assert(r.0.locate(k) == (InsertPosition::BelowLeaf, r.0));
                            assert(r.0.values() =~= map![sk => r.0.value]);
                        }
                        assert forall|q: Seq<bool>| !strict_prefix(q, k) implies inserted(
                            props,
                            k,
                            value,
                            me.lookup(q),
                            #[trigger] r.0.lookup(q),
                            q,
                        ) by {
                            assert(strict_prefix(sk, k));
                            if q == sk {
                                assert(strict_prefix(q, k));
                            }
                            assert(node.key@ == sk);
                            assert(inserted(props, k, value, me.lookup(q), node.lookup(q), q));
                            assert(lookup_match(props, r.0.lookup(q), node.lookup(q)));
                            if is_prefix(k, q) {
                                assert(node.lookup(q) is Some);
                                if props.leaf_empty {
                                    assert(r.0.lookup(q) is Some);
                                } else {
                                    assert(r.0.lookup(q) == node.lookup(q));
                                }
                                assert(inserted(props, k, value, me.lookup(q), r.0.lookup(q), q));
                            } else {
                                assert(lookup_match(props, node.lookup(q), me.lookup(q)));
                                assert(inserted(props, k, value, me.lookup(q), r.0.lookup(q), q));
                            }
                        }
                    }
                    r
                } else {
                    (node, false)
                }
            },
            NodeState::Leaf { value: v } => {
                proof {
                    assert(false);
                }
                (Node { key: node_key, value: inner, state: NodeState::Leaf { value: v } }, true)
            },
        }
    }
}

impl<I: Copy + Default, V: Copy> Node<I, V> {
    /// Lookup in an optional subtree.
    pub closed spec fn lookup_opt(n: Option<Node<I, V>>, q: Seq<bool>) -> Option<V> {
        match n {
            Some(n) => n.lookup(q),
            None => None,
        }
    }

    /// Remove every bit string starting with `key` from the subtree of this
    /// node; `None` when nothing is left.  A leaf above `key` is split into a
    /// chain that keeps its value on the sides not taken by `key`.
    fn remove_rec<C: LeafValueComparer<V>>(self, key: &BitKey, p: Ghost<TreeProperties>) -> (r:
        Option<Node<I, V>>)
        requires
            self.wf(),
            self.compressed::<C>(p@),
        ensures
            r matches Some(n) ==> {
                &&& n.wf()
                &&& n.compressed::<C>(p@)
                &&& none_from(n.values(), key@)
                &&& agree(n.values(), self.values())
                &&& is_prefix(self.key@, n.key@)
                &&& (n.key@.len() == self.key@.len() && n.spec_is_leaf() ==> n == self)
            },
            r is None ==> is_prefix(key@, self.key@),
            forall|q: Seq<bool>|
                !strict_prefix(q, key@) ==> #[trigger] Node::lookup_opt(r, q) == if is_prefix(
                    key@,
                    q,
                ) {
                    None
                } else {
                    self.lookup(q)
                },
        decreases self,
    {
        let shared_prefix_len = self.key.shared_prefix_len(key);
        let ghost k = key@;
        let ghost sk = self.key@;
        let ghost me = self;
        proof {
            lemma_shared_len_props(sk, k);
            lemma_shared_len_prefix(sk, k);
            lemma_shared_len_prefix(k, sk);
        }
        if shared_prefix_len == key.len() {
            // the whole subtree lies below `key`
            proof {
                assert forall|q: Seq<bool>|
                    !strict_prefix(q, k) && !is_prefix(k, q) implies me.lookup(q) is None by {
                    if is_prefix(sk, q) {
                        lemma_prefix_trans(k, sk, q);
                    }
                }
            }
            return None;
        }
        if shared_prefix_len < self.key.len() {
            // `key` lies beside this subtree
            proof {
                assert(sk.subrange(0, sk.len() as int) =~= sk);
                assert forall|q: Seq<bool>|
                    !strict_prefix(q, k) && is_prefix(k, q) implies me.lookup(q) is None by {
                    if is_prefix(sk, q) {
                        let d = shared_prefix_len as int;
                        lemma_prefix_index(sk, q, d);
                        lemma_prefix_index(k, q, d);
                    }
                }
                lemma_values_keys(me);
                assert forall|kk: Seq<bool>| #[trigger] me.values().contains_key(kk) implies !is_prefix(
                    k,
                    kk,
                ) by {
                    let d = shared_prefix_len as int;
                    lemma_prefix_index(sk, kk, d);
                    if is_prefix(k, kk) {
                        lemma_prefix_index(k, kk, d);
                    }
                }
            }
            return Some(self);
        }
        let Node { key: node_key, value: inner, state } = self;
        match state {
            NodeState::Leaf { value } => {
                // split the leaf, leaving out `key`
                let key_len = key.len();
                let mut sibling = key.duplicate();
                sibling.flip(key_len - 1);
                let bottom = Node::new_leaf(sibling.duplicate(), I::default(), value);
                let ghost sib = sibling@;
                let nl = node_key.len();
                proof {
                    assert(sib.subrange(0, nl as int) =~= sk) by {
                        assert forall|j: int| 0 <= j < nl implies sib[j] == sk[j] by {
                            lemma_prefix_index(sk, k, j);
                        }
                    }
                }
                // the top of the chain takes the place of this node and keeps its inner value
                let r = Node::linear_split::<C>(nl, inner, value, &sibling, key_len - 1, bottom, p);
                proof {
                    let ro = Some(r);
                    lemma_chain_keys(r, nl as nat, (key_len - 1) as nat, sib, value, value);
                    lemma_values_keys(r);
                    assert(me.values() =~= map![sk => me.value]);
                    let last = key_len - 1;
                    assert forall|kk: Seq<bool>| #[trigger] r.values().contains_key(kk) implies !is_prefix(
                        k,
                        kk,
                    ) by {
                        if kk == sib && is_prefix(k, kk) {
                            lemma_prefix_index(k, kk, last as int);
                        }
                    }
                    if nl < last {
                        assert(r.key@ =~= sk);
                        assert(r.values()[sk] == me.value);
                    }
                    if nl == last {
                        assert(r == bottom);
                        assert(r.values() =~= map![sib => r.value]);
                        assert(sib.len() > sk.len());
                    }
                    assert(none_from(r.values(), k));
                    assert forall|kk: Seq<bool>| #[trigger] r.values().contains_key(kk) && me.values().contains_key(kk) implies r.values()[kk] == me.values()[kk] by {
                        assert(kk == sk);
                        if nl == last {
                            assert(r.values().contains_key(sk) ==> sk == sib);
                        }
                    }
                    assert(agree(r.values(), me.values()));
                    assert(is_prefix(sk, r.key@)) by {
                        if nl < key_len - 1 {
                            assert(r.key@ =~= sk);
                        } else {
                            assert(sib.subrange(0, nl as int) =~= sk);
                        }
                    }
                    assert forall|q: Seq<bool>| !strict_prefix(q, k) implies #[trigger] Node::lookup_opt(
                        ro,
                        q,
                    ) == if is_prefix(k, q) {
                        None
                    } else {
                        me.lookup(q)
                    } by {
                        let last = key_len - 1;
                        lemma_shared_len_props(sib, q);
                        lemma_shared_len_prefix(sib, q);
                        if is_prefix(sk, q) {
                            assert(is_prefix(sib.subrange(0, nl as int), q));
                            if is_prefix(k, q) {
                                lemma_prefix_index(k, q, last as int);
                                assert(!is_prefix(sib, q));
                                assert forall|j: int| 0 <= j < last implies sib[j] == q[j] by {
                                    lemma_prefix_index(k, q, j);
                                }
                                lemma_shared_len_exact(sib, q, last as nat);
                            } else if is_prefix(sib, q) {
                            } else {
                                let d = shared_len(sib, q) as int;
                                if d < q.len() && d < last {
                                } else if d >= q.len() {
                                    assert(q.len() <= last) by {
                                        if q.len() > last {
                                            assert(q.subrange(0, sib.len() as int) =~= sib) by {
                                                assert(q.len() >= sib.len());
                                            }
                                        }
                                    }
                                    assert(q =~= k.subrange(0, q.len() as int)) by {
                                        assert forall|j: int| 0 <= j < q.len() implies q[j] == k[j] by {
                                        }
                                    }
                                    assert(strict_prefix(q, k) || q =~= k);
                                } else {
                                    assert(d == last);
                                    assert(q.subrange(0, k.len() as int) =~= k) by {
                                        assert forall|j: int| 0 <= j < k.len() implies q[j] == k[j] by {
                                        }
                                    }
                                }
                            }
                        } else {
                            if is_prefix(k, q) {
                                lemma_prefix_trans(sk, k, q);
                            }
                            if nl == last && is_prefix(sib, q) {
                                lemma_prefix_trans(sk, sib, q);
                            }
                        }
                    }
                }
                Some(r)
            },
            NodeState::InnerNode { left, right } => {
                let side = key.get(node_key.len());
                let ghost old_left = *left;
                let ghost old_right = *right;
                let n = node_key.len();
                let ghost mut rest: Option<Node<I, V>> = None;
                let r = if side {
                    let res = (*right).remove_rec::<C>(key, p);
                    proof {
                        rest = res;
                    }
                    match res {
                        // `key` covers this child: the other one takes the place of this node
                        None => *left,
                        Some(c) => Node {
                            key: node_key,
                            value: inner,
                            state: NodeState::InnerNode { left, right: Box::new(c) },
                        },
                    }
                } else {
                    let res = (*left).remove_rec::<C>(key, p);
                    proof {
                        rest = res;
                    }
                    match res {
                        None => *right,
                        Some(c) => Node {
                            key: node_key,
                            value: inner,
                            state: NodeState::InnerNode { left: Box::new(c), right },
                        },
                    }
                };
                let ghost child = if side { old_right } else { old_left };
                let ghost other = if side { old_left } else { old_right };
                proof {
                    lemma_remove_step_values(me, child, other, rest, r, k, side);
                    let ro = Some(r);
                    assert(child.key@[n as int] == k[n as int]) by {
                        if rest is None {
                            lemma_prefix_index(k, child.key@, n as int);
                        }
                    }
                    if let Some(c) = rest {
                        assert(c.key@[n as int] == child.key@[n as int]) by {
                            lemma_prefix_index(child.key@, c.key@, n as int);
                        }
                        lemma_prefix_trans(sk, child.key@, c.key@);
                        assert(r.wf());
                        assert(!r.mergeable::<C>(p@)) by {
                            if c.key@.len() == n + 1 && c.spec_is_leaf() {
                                assert(c == child);
                                assert(r == me);
                            }
                        }
                    }
                    assert forall|q: Seq<bool>| !strict_prefix(q, k) implies #[trigger] Node::lookup_opt(
                        ro,
                        q,
                    ) == if is_prefix(k, q) {
                        None
                    } else {
                        me.lookup(q)
                    } by {
                        if is_prefix(sk, q) && q.len() > n {
                            if q[n as int] == k[n as int] {
                                assert(me.lookup(q) == child.lookup(q));
                                assert(Node::lookup_opt(rest, q) == if is_prefix(k, q) {
                                    None
                                } else {
                                    child.lookup(q)
                                });
                                if rest is None {
                                    if is_prefix(other.key@, q) {
                                        lemma_prefix_index(other.key@, q, n as int);
                                    }
                                }
                            } else {
                                assert(me.lookup(q) == other.lookup(q));
                                if is_prefix(k, q) {
                                    lemma_prefix_index(k, q, n as int);
                                }
                            }
                        } else if is_prefix(sk, q) {
                            assert(q =~= sk);
                        } else {
                            if is_prefix(k, q) {
                                lemma_prefix_trans(sk, k, q);
                            }
                            if rest is None && is_prefix(other.key@, q) {
                                lemma_prefix_trans(sk, other.key@, q);
                            }
                        }
                    }
                }
                Some(r)
            },
        }
    }
}

impl<I: Copy + Default, V: Copy> Node<I, V> {
    /// Where the search for `key` stops below this node.
    pub fn goto_insert(&self, key: &BitKey) -> (r: InsertPositionWith<&Node<I, V>>)
        requires
            self.wf(),
        ensures
            (r.spec_position(), *r.spec_node()) == self.locate(key@),
    {
        let key_len = key.len();
        if !self.key.is_prefix_of(key) {
            return InsertPositionWith::ReplaceNode(self);
        }
        let mut cursor = self;
        loop
            invariant
                cursor.wf(),
                is_prefix(cursor.key@, key@),
                self.locate(key@) == cursor.locate(key@),
                key_len == key@.len(),
            decreases key_len - cursor.key@.len(),
        {
            let cursor_len = cursor.key.len();
            if cursor_len == key_len {
                return InsertPositionWith::AlreadyExists(cursor);
            }
            let side = key.get(cursor_len);
            match &cursor.state {
                NodeState::InnerNode { left, right } => {
                    let child: &Node<I, V> = if side {
                        &**right
                    } else {
                        &**left
                    };
                    if !child.key.is_prefix_of(key) {
                        proof {
                            assert(cursor.locate(key@) == child.locate(key@));
                            assert(child.locate(key@) == (InsertPosition::ReplaceNode, *child));
                        }
                        return InsertPositionWith::ReplaceNode(child);
                    }
                    cursor = child;
                },
                NodeState::Leaf { .. } => {
                    return InsertPositionWith::BelowLeaf(cursor);
                },
            }
        }
    }

    /// The deepest node below this one whose key is a prefix of `key`.
    pub fn get_most_specific(&self, key: &BitKey) -> (r: Option<&Node<I, V>>)
        requires
            self.wf(),
        ensures
            match r {
                Some(n) => self.most_specific(key@) == Some(*n),
                None => self.most_specific(key@).is_none(),
            },
    {
        let key_len = key.len();
        if !self.key.is_prefix_of(key) {
            return None;
        }
        let mut current = self;
        loop
            invariant
                current.wf(),
                is_prefix(current.key@, key@),
                self.most_specific(key@) == current.most_specific(key@),
                key_len == key@.len(),
            decreases key_len - current.key@.len(),
        {
            let current_len = current.key.len();
            if current_len == key_len {
                return Some(current);
            }
            let side = key.get(current_len);
            match &current.state {
                NodeState::InnerNode { left, right } => {
                    let child: &Node<I, V> = if side {
                        &**right
                    } else {
                        &**left
                    };
                    if !child.key.is_prefix_of(key) {
                        proof {
                            assert(child.most_specific(key@).is_none());
                        }
                        return Some(current);
                    }
                    current = child;
                },
                NodeState::Leaf { .. } => {
                    return Some(current);
                },
            }
        }
    }

    /// Keys of the nodes from this one down whose keys are prefixes of `key`.
    fn collect_path(&self, key: &BitKey) -> (r: Vec<BitKey>)
        requires
            self.wf(),
        ensures
            views(r@) == self.path(key@),
    {
        let mut out: Vec<BitKey> = Vec::new();
        if !self.key.is_prefix_of(key) {
            proof {
                assert(views(out@) =~= self.path(key@));
            }
            return out;
        }
        let mut current = self;
        let key_len = key.len();
        loop
            invariant
                current.wf(),
                key_len == key@.len(),
                is_prefix(current.key@, key@),
                views(out@) + current.path(key@) == self.path(key@),
            decreases key_len - current.key@.len(),
        {
            let ghost before = views(out@);
            out.push(current.key.duplicate());
            proof {
                assert(views(out@) =~= before.push(current.key@));
            }
            let current_len = current.key.len();
            if current_len == key_len {
                proof {
                    assert(current.path(key@) =~= seq![current.key@]);
                    assert(views(out@) =~= before + current.path(key@));
                }
                return out;
            }
            match &current.state {
                NodeState::InnerNode { left, right } => {
                    let child: &Node<I, V> = if key.get(current_len) {
                        &**right
                    } else {
                        &**left
                    };
                    proof {
                        assert(current.path(key@) =~= seq![current.key@] + child.path(key@));
                        assert(views(out@) + child.path(key@) =~= before + current.path(key@));
                    }
                    if !child.key.is_prefix_of(key) {
                        proof {
                            assert(child.path(key@) =~= Seq::<Seq<bool>>::empty());
                            assert(views(out@) =~= before + current.path(key@));
                        }
                        return out;
                    }
                    current = child;
                },
                NodeState::Leaf { .. } => {
                    proof {
                        assert(views(out@) =~= before + current.path(key@));
                    }
                    return out;
                },
            }
        }
    }

    /// Leaves below this node, in order, with their values, appended to `out`.
    fn collect_leaves(&self, out: &mut Vec<(BitKey, V)>)
        ensures
            pairs_view(final(out)@) == pairs_view(old(out)@) + self.leaves(),
        decreases self,
    {
        match &self.state {
            NodeState::Leaf { value } => {
                let ghost before = pairs_view(out@);
                out.push((self.key.duplicate(), *value));
                proof {
                    assert(pairs_view(out@) =~= before + self.leaves());
                }
            },
            NodeState::InnerNode { left, right } => {
                left.collect_leaves(out);
                right.collect_leaves(out);
                proof {
                    assert(pairs_view(out@) =~= pairs_view(old(out)@) + self.leaves());
                }
            },
        }
    }

    /// Keys below this node in the given order (0: pre, 1: in, 2: post),
    /// appended to `out`.
    fn collect_keys(&self, order: u8, out: &mut Vec<BitKey>)
        requires
            order < 3,
        ensures
            views(final(out)@) == views(old(out)@) + if order == 0 {
                self.pre_order()
            } else if order == 1 {
                self.in_order()
            } else {
                self.post_order()
            },
        decreases self,
    {
        let ghost before = views(out@);
        let ghost k = self.key@;
        match &self.state {
            NodeState::Leaf { .. } => {
                out.push(self.key.duplicate());
                proof {
                    assert(views(out@) =~= before + seq![k]);
                }
            },
            NodeState::InnerNode { left, right } => {
                if order == 0 {
                    out.push(self.key.duplicate());
                    proof {
                        assert(views(out@) =~= before + seq![k]);
                    }
                    left.collect_keys(order, out);
                    right.collect_keys(order, out);
                    proof {
                        assert(views(out@) =~= before + self.pre_order());
                    }
                } else if order == 1 {
                    left.collect_keys(order, out);
                    let ghost mid = views(out@);
                    out.push(self.key.duplicate());
                    proof {
                        assert(views(out@) =~= mid + seq![k]);
                    }
                    right.collect_keys(order, out);
                    proof {
                        assert(views(out@) =~= before + self.in_order());
                    }
                } else {
                    left.collect_keys(order, out);
                    right.collect_keys(order, out);
                    let ghost mid = views(out@);
                    out.push(self.key.duplicate());
                    proof {
                        assert(views(out@) =~= mid + seq![k]);
                        assert(views(out@) =~= before + self.post_order());
                    }
                }
            },
        }
    }
}

/// The entries that hold a value, in order.
pub open spec fn present<V>(v: Seq<(Seq<bool>, Option<V>)>) -> Seq<(Seq<bool>, V)>
    decreases v.len(),
{
    if v.len() == 0 {
        Seq::empty()
    } else {
        let rest = present(v.drop_last());
        match v.last().1 {
            Some(x) => rest.push((v.last().0, x)),
            None => rest,
        }
    }
}

/// Keys and optional values of a list of pairs, as views.
pub open spec fn opt_pairs_view<V>(v: Seq<(BitKey, Option<V>)>) -> Seq<(Seq<bool>, Option<V>)> {
    v.map_values(|e: (BitKey, Option<V>)| (e.0@, e.1))
}

/// Keys and values of a list of pairs, as views.
pub open spec fn pairs_view<V>(v: Seq<(BitKey, V)>) -> Seq<(Seq<bool>, V)> {
    v.map_values(|e: (BitKey, V)| (e.0@, e.1))
}

impl<I: Copy + Default, V: Copy> Node<I, V> {
    /// Set the inner value of the node with exactly the key `key`, if there
    /// is one below this node.
    fn set_inner<C: LeafValueComparer<V>>(self, key: &BitKey, value: I, p: Ghost<TreeProperties>) -> (r: (
        Node<I, V>,
        bool,
    ))
        requires
            self.wf(),
            self.compressed::<C>(p@),
        ensures
            r.0.wf(),
            r.0.compressed::<C>(p@),
            r.0.key_view() == self.key@,
            r.0.spec_is_leaf() == self.spec_is_leaf(),
            r.0.leaf_value() == self.leaf_value(),
            r.0.leaves() == self.leaves(),
            forall|q: Seq<bool>| #[trigger] r.0.lookup(q) == self.lookup(q),
            r.1 == self.values().contains_key(key@),
            r.0.values() == if r.1 {
                self.values().insert(key@, value)
            } else {
                self.values()
            },
        decreases self,
    {
        proof {
            lemma_values_keys(self);
        }
        if self.key.equals(key) {
            let Node { key: k, value: _, state } = self;
            let r = Node { key: k, value, state };
            proof {
                assert(r.values() =~= self.values().insert(key@, value));
            }
            return (r, true);
        }
        if !self.key.is_prefix_of(key) || self.key.len() >= key.len() || self.is_leaf() {
            proof {
                if self.values().contains_key(key@) {
                    assert(is_prefix(self.key@, key@));
                    if self.key@.len() == key@.len() {
                        assert(self.key@ =~= key@);
                    }
                }
            }
            return (self, false);
        }
        let side = key.get(self.key.len());
        let ghost me = self;
        let Node { key: k, value: inner, state } = self;
        match state {
            NodeState::InnerNode { left, right } => {
                let ghost ol = *left;
                let ghost or = *right;
                let (r, found) = if side {
                    let (c, f) = (*right).set_inner::<C>(key, value, p);
                    (Node { key: k, value: inner, state: NodeState::InnerNode { left, right: Box::new(c) } }, f)
                } else {
                    let (c, f) = (*left).set_inner::<C>(key, value, p);
                    (Node { key: k, value: inner, state: NodeState::InnerNode { left: Box::new(c), right } }, f)
                };
                proof {
                    lemma_values_keys(ol);
                    lemma_values_keys(or);
                    let m = me.key@.len() as int;
                    assert(!me.mergeable::<C>(p@));
                    assert(!r.mergeable::<C>(p@));
                    let child = if side { or } else { ol };
                    let other = if side { ol } else { or };
                    let newc = if side { r.spec_right() } else { r.spec_left() };
                    assert forall|q: Seq<bool>| #[trigger] r.lookup(q) == me.lookup(q) by {
                        assert(newc.lookup(q) == child.lookup(q));
                    }
                    assert(r.leaves() == me.leaves());
                    if other.values().contains_key(key@) {
                        lemma_prefix_index(other.key@, key@, m);
                    }
                    assert(found == me.values().contains_key(key@));
                    if found {
                        assert(r.values() =~= me.values().insert(key@, value));
                    } else {
                        assert(r.values() =~= me.values());
                    }
                }
                (r, found)
            },
            NodeState::Leaf { value: v } => {
                (Node { key: k, value: inner, state: NodeState::Leaf { value: v } }, false)
            },
        }
    }
}

impl<I: Copy + Default, V: Copy + Default> Node<I, V> {
    /// Make sure a node with exactly the key `key` exists below this one,
    /// adding leaves with default values where the structure needs them.
    fn insert_node_rec<C: LeafValueComparer<V>>(self, key: &BitKey, p: Ghost<TreeProperties>) -> (r:
        Node<I, V>)
        requires
            self.wf(),
            !p@.empty,
        ensures
            r.wf(),
            r.key_view() == self.key@.subrange(0, shared_len(self.key@, key@) as int),
            r.values().contains_key(key@),
            self.values().submap_of(r.values()),
        decreases self,
    {
        let shared_prefix_len = self.key.shared_prefix_len(key);
        let self_key_len = self.key.len();
        let ghost k = key@;
        let ghost sk = self.key@;
        let ghost me = self;
        proof {
            lemma_shared_len_props(sk, k);
            lemma_shared_len_prefix(sk, k);
            lemma_shared_len_prefix(k, sk);
            lemma_values_keys(me);
            assert(sk.subrange(0, shared_prefix_len as int) =~= k.subrange(0, shared_prefix_len as int));
        }
        if shared_prefix_len < self_key_len {
            if shared_prefix_len == key.len() {
                // `key` is above this node: a new parent at `key`, with an empty leaf beside
                let mut sibling = self.key.duplicate();
                sibling.clip(shared_prefix_len + 1);
                sibling.flip(shared_prefix_len);
                let ghost sib = sibling@;
                proof {
                    assert(sib.subrange(0, shared_prefix_len as int) =~= sk.subrange(0, shared_prefix_len as int));
                }
                let r = self.insert_leaf_sibling(shared_prefix_len, sibling, V::default());
                proof {
                    assert(k =~= sk.subrange(0, shared_prefix_len as int));
                    lemma_values_sibling(me, r, sib);
                }
                return r;
            }
            // `key` leaves this node's key: a new parent, with a leaf at `key`
            let ghost kk = key@;
            let r = self.insert_leaf_sibling(shared_prefix_len, key.duplicate(), V::default());
            proof {
                lemma_values_sibling(me, r, kk);
            }
            return r;
        }
        if self_key_len == key.len() {
            proof {
                assert(sk =~= k);
                assert(sk.subrange(0, shared_prefix_len as int) =~= sk);
            }
            return self;
        }
        let ghost me2 = self;
        let Node { key: node_key, value: inner, state } = self;
        match state {
            NodeState::Leaf { value } => {
                // below this leaf: a chain down to `key`, keeping the value beside it
                let bottom = Node::new_leaf(key.duplicate(), I::default(), V::default());
                proof {
                    assert(key@.subrange(0, self_key_len as int) =~= sk);
                    assert(bottom.values().contains_key(k));
                    assert(sk.subrange(0, shared_prefix_len as int) =~= sk);
                }
                let r = Node::linear_split::<C>(
                    self_key_len,
                    inner,
                    value,
                    key,
                    key.len(),
                    bottom,
                    p,
                );
                proof {
                    lemma_values_keys(r);
                    assert(me.values() =~= map![sk => inner]);
                }
                r
            },
            NodeState::InnerNode { left, right } => {
                let side = key.get(self_key_len);
                let ghost ol = *left;
                let ghost or = *right;
                let r = if side {
                    let c = (*right).insert_node_rec::<C>(key, p);
                    Node { key: node_key, value: inner, state: NodeState::InnerNode { left, right: Box::new(c) } }
                } else {
                    let c = (*left).insert_node_rec::<C>(key, p);
                    Node { key: node_key, value: inner, state: NodeState::InnerNode { left: Box::new(c), right } }
                };
                proof {
                    let n = self_key_len as int;
                    let child = if side { or } else { ol };
                    let newc = if side { r.spec_right() } else { r.spec_left() };
                    assert(shared_len(child.key@, k) >= n + 1) by {
                        assert forall|j: int| 0 <= j < n + 1 implies child.key@[j] == k[j] by {
                            if j < n {
                                lemma_prefix_index(sk, child.key@, j);
                                lemma_prefix_index(sk, k, j);
                            }
                        }
                        lemma_shared_len_props(child.key@, k);
                        if shared_len(child.key@, k) < n + 1 {
                            let d = shared_len(child.key@, k) as int;
                            assert(child.key@[d] == k[d]);
                        }
                    }
                    lemma_shared_len_props(child.key@, k);
                    assert(newc.key@.subrange(0, n) =~= sk) by {
                        assert(child.key@.subrange(0, n) =~= sk);
                    }
                    assert(newc.key@[n] == child.key@[n]);
                    assert(r.wf());
                    assert(sk.subrange(0, shared_prefix_len as int) =~= sk);
                    lemma_values_keys(newc);
                    lemma_values_grow_child(me, r, side);
                }
                r
            },
        }
    }
}

impl<I: Copy + Default, V: Copy + Default> Node<I, V> {
    /// At the node `key`, whose inner value may have become empty: remove
    /// it with an empty leaf child, or, if it is an empty leaf itself, remove
    /// it with its empty parent, or turn its parent into a leaf when its
    /// sibling is an empty leaf too.
    fn compact_rec<F: Fn(&I) -> bool>(self, key: &BitKey, is_empty: &F) -> (r: Node<I, V>)
        requires
            self.wf(),
            forall|v: &I| #[trigger] is_empty.requires((v,)),
            deterministic(*is_empty),
        ensures
            r.wf(),
            r.values().submap_of(self.values()),
            is_prefix(self.key@, r.key@),
            self.compacted(r, key@, *is_empty),
        decreases self,
    {
        proof {
            lemma_values_keys(self);
            assert(self.key@.subrange(0, self.key@.len() as int) =~= self.key@);
            assert(self.values().submap_of(self.values()));
        }
        let ghost f = *is_empty;
        let ghost me = self;
        if !self.key.is_prefix_of(key) {
            return self;
        }
        let self_key_len = self.key.len();
        if self_key_len == key.len() {
            proof {
                assert(me.key@ =~= key@);
                assert(me.locate(key@) == (InsertPosition::AlreadyExists, me));
            }
            // the node itself: drop an empty leaf child, the other child takes its place
            if !is_empty(&self.value) {
                return self;
            }
            let Node { key: node_key, value: inner, state } = self;
            match state {
                NodeState::InnerNode { left, right } => {
                    if left.is_leaf() && is_empty(&left.value) {
                        proof {
                            lemma_values_child(me);
                        }
                        return *right;
                    }
                    if right.is_leaf() && is_empty(&right.value) {
                        proof {
                            lemma_values_child(me);
                        }
                        return *left;
                    }
                    return Node {
                        key: node_key,
                        value: inner,
                        state: NodeState::InnerNode { left, right },
                    };
                },
                NodeState::Leaf { value } => {
                    return Node { key: node_key, value: inner, state: NodeState::Leaf { value } };
                },
            }
        }
        if self.is_leaf() {
            return self;
        }
        let side = key.get(self_key_len);
        let Node { key: node_key, value: inner, state } = self;
        match state {
            NodeState::InnerNode { left, right } => {
                let (child, other) = if side {
                    (right, left)
                } else {
                    (left, right)
                };
                let ghost old_child = *child;
                let ghost old_other = *other;
                proof {
                    assert(me.locate(key@) == old_child.locate(key@));
                    assert(old_other == me.other_child(key@));
                }
                if child.key.equals(key) && child.is_leaf() && is_empty(&child.value) {
                    // an empty leaf: its parent (this node) goes if it is empty too, and
                    // becomes a leaf if the sibling is an empty leaf as well
                    proof {
                        assert(old_child.key@.subrange(0, key@.len() as int) =~= key@);
                        assert(old_child.locate(key@) == (InsertPosition::AlreadyExists, old_child));
                        assert(me.parent_of(key@) == Some(me));
                    }
                    if is_empty(&inner) {
                        proof {
                            lemma_values_child(me);
                        }
                        return *other;
                    }
                    if other.is_leaf() && is_empty(&other.value) {
                        let x = V::default();
                        let r = Node { key: node_key, value: inner, state: NodeState::Leaf { value: x } };
                        proof {
                            assert(r.values() =~= map![me.key@ => me.value]);
                            assert(r == me.replaced(me.key@, me.as_leaf(x)));
                        }
                        return r;
                    }
                    let r = if side {
                        Node { key: node_key, value: inner, state: NodeState::InnerNode { left: other, right: child } }
                    } else {
                        Node { key: node_key, value: inner, state: NodeState::InnerNode { left: child, right: other } }
                    };
                    proof {
                        assert(r == me);
                    }
                    return r;
                }
                let new_child = (*child).compact_rec(key, is_empty);
                let r = if side {
                    Node {
                        key: node_key,
                        value: inner,
                        state: NodeState::InnerNode { left: other, right: Box::new(new_child) },
                    }
                } else {
                    Node {
                        key: node_key,
                        value: inner,
                        state: NodeState::InnerNode { left: Box::new(new_child), right: other },
                    }
                };
                proof {
                    let n = node_key@.len() as int;
                    lemma_prefix_index(old_child.key@, new_child.key@, n);
                    lemma_prefix_trans(me.key@, old_child.key@, new_child.key@);
                    lemma_values_keys(old_child);
                    lemma_values_keys(new_child);
                    lemma_values_keys(old_other);
                    assert(r.wf());
                    lemma_values_replace_child(me, r, side);
                    lemma_compacted_step(me, old_child, new_child, r, key@, f, side);
                }
                r
            },
            NodeState::Leaf { value } => {
                Node { key: node_key, value: inner, state: NodeState::Leaf { value } }
            },
        }
    }
}

/// A path-compressed binary tree: inner nodes have two children, leaves
/// carry values; sibling leaves merge as the policy allows.
pub struct Tree<I, V, C> {
    props: TreeProperties,
    node: Option<Node<I, V>>,
    comparer: std::marker::PhantomData<C>,
}

impl<I: Copy + Default, V: Copy, C: LeafValueComparer<V>> Tree<I, V, C> {
    /// The policy of the tree.
    pub closed spec fn properties(&self) -> TreeProperties {
        self.props
    }

    /// The root node, if any.
    pub closed spec fn spec_root(&self) -> Option<Node<I, V>> {
        self.node
    }

    /// Every inner node has two children: the left one's key continues the
    /// node's key with a 0, the right one's with a 1.
    pub closed spec fn well_formed(&self) -> bool {
        match self.node {
            Some(n) => n.wf(),
            None => true,
        }
    }

    /// No inner node has two leaf children one bit longer than itself whose
    /// values merge under the policy: the tree is as compressed as it can be.
    pub closed spec fn fully_compressed(&self) -> bool {
        match self.node {
            Some(n) => n.compressed::<C>(self.props),
            None => true,
        }
    }

    /// The tree invariant: a valid policy, well-formed and fully compressed.
    pub closed spec fn wf(&self) -> bool {
        &&& self.props.valid()
        &&& self.well_formed()
        &&& self.fully_compressed()
    }

    /// The search for `key` ends at a leaf that already gives `key` the
    /// value `value` (see [`Node::settled`]).
    pub closed spec fn settled(&self, key: Seq<bool>, value: V) -> bool {
        match self.node {
            Some(n) => n.settled::<C>(key, value, self.props),
            None => false,
        }
    }

    /// `self` is `before` after setting `value` for `key`: the policy is
    /// kept, every bit string starting with `key` gets `value` (is present,
    /// where leaf values carry nothing), every bit string that neither
    /// starts with `key` nor is a strict prefix of it keeps its lookup, the
    /// search for `key` now ends at a leaf giving it `value`, and a tree where
    /// it did so already is left as it was.
    pub open spec fn inserted_from(&self, before: Tree<I, V, C>, key: Seq<bool>, value: V) -> bool {
        &&& self.settled(key, value)
        &&& (before.settled(key, value) ==> *self == before)
        &&& self.properties() == before.properties()
        &&& forall|q: Seq<bool>|
            !strict_prefix(q, key) ==> inserted(
                before.properties(),
                key,
                value,
                before.lookup(q),
                #[trigger] self.lookup(q),
                q,
            )
    }

    /// Leaves in order, with their values.
    pub closed spec fn leaves(&self) -> Seq<(Seq<bool>, V)> {
        match self.node {
            Some(n) => n.leaves(),
            None => Seq::empty(),
        }
    }

    /// Inner values of all nodes, by key.
    pub closed spec fn values(&self) -> Map<Seq<bool>, I> {
        match self.node {
            Some(n) => n.values(),
            None => Map::empty(),
        }
    }

    /// The node with exactly the key `q`, if there is one.
    pub closed spec fn node_at(&self, q: Seq<bool>) -> Option<Node<I, V>> {
        match self.node {
            Some(n) => if n.locate(q).0 == InsertPosition::AlreadyExists {
                Some(n.locate(q).1)
            } else {
                None
            },
            None => None,
        }
    }

    /// Value of the leaf whose key is a prefix of `q`, if any.
    pub closed spec fn lookup(&self, q: Seq<bool>) -> Option<V> {
        match self.node {
            Some(n) => n.lookup(q),
            None => None,
        }
    }

    /// An empty tree with policy `props`.
    pub fn new(props: TreeProperties) -> (r: Tree<I, V, C>)
        requires
            props.valid(),
        ensures
            r.wf(),
            r.properties() == props,
            r.spec_root().is_none(),
            forall|q: Seq<bool>| #[trigger] r.lookup(q).is_none(),
    {
        Tree { props, node: None, comparer: std::marker::PhantomData }
    }

    /// Set `value` for every bit string that starts with `key`.  Sibling
    /// leaves whose values merge are combined.
    pub fn set_leaf_value(&mut self, key: BitKey, value: V)
        requires
            old(self).wf(),
        ensures
            final(self).wf(),
            final(self).well_formed(),
            final(self).fully_compressed(),
            final(self).inserted_from(*old(self), key@, value),
            none_below(final(self).values(), key@),
            !old(self).properties().empty ==> kept_beside(old(self).values(), final(self).values(), key@),
    {
        let mut root: Option<Node<I, V>> = None;
        core::mem::swap(&mut self.node, &mut root);
        match root {
            None => {
                let ghost k = key@;
                let n = Node::new_leaf(key, I::default(), value);
                proof {
                    assert(n.key@.subrange(0, k.len() as int) =~= k);
                    assert(n.locate(k) == (InsertPosition::AlreadyExists, n));
                    assert(n.values() =~= map![k => n.value]);
                }
                self.node = Some(n);
            },
            Some(n) => {
                let (n, _) = n.insert_rec::<C>(key, value, self.props);
                self.node = Some(n);
            },
        }
    }

    /// Remove every bit string starting with `key`.
    pub fn remove(&mut self, key: &BitKey)
        requires
            old(self).wf(),
        ensures
            final(self).wf(),
            final(self).well_formed(),
            final(self).fully_compressed(),
            none_from(final(self).values(), key@),
            agree(final(self).values(), old(self).values()),
            final(self).properties() == old(self).properties(),
            forall|q: Seq<bool>|
                !strict_prefix(q, key@) ==> #[trigger] final(self).lookup(q) == if is_prefix(
                    key@,
                    q,
                ) {
                    None
                } else {
                    old(self).lookup(q)
                },
    {
        let mut root: Option<Node<I, V>> = None;
        core::mem::swap(&mut self.node, &mut root);
        match root {
            None => {},
            Some(n) => {
                self.node = n.remove_rec::<C>(key, Ghost(self.props));
                proof {
                    if self.node is None {
                        assert(self.values() =~= Map::<Seq<bool>, I>::empty());
                    }
                    assert forall|q: Seq<bool>| !strict_prefix(q, key@) implies #[trigger] self.lookup(q)
                        == if is_prefix(key@, q) {
                        None
                    } else {
                        n.lookup(q)
                    } by {
                        assert(self.lookup(q) == Node::lookup_opt(self.node, q));
                    }
                }
            },
        }
    }

    /// The root node, if the tree is not empty.
    pub fn root(&self) -> (r: Option<&Node<I, V>>)
        ensures
            match r {
                Some(n) => self.spec_root() == Some(*n),
                None => self.spec_root().is_none(),
            },
    {
        match &self.node {
            Some(n) => Some(n),
            None => None,
        }
    }

    /// Where the search for `key` stops; `None` for an empty tree.
    pub fn goto_insert(&self, key: &BitKey) -> (r: Option<InsertPositionWith<&Node<I, V>>>)
        requires
            self.wf(),
        ensures
            match self.spec_root() {
                None => r.is_none(),
                Some(n) => r matches Some(p) && (p.spec_position(), *p.spec_node()) == n.locate(
                    key@,
                ),
            },
    {
        match &self.node {
            Some(n) => Some(n.goto_insert(key)),
            None => None,
        }
    }

    /// The node with exactly the key `key`, if there is one.
    pub fn get(&self, key: &BitKey) -> (r: Option<&Node<I, V>>)
        requires
            self.wf(),
        ensures
            match r {
                Some(n) => self.spec_root() matches Some(root) && root.locate(key@) == (
                    InsertPosition::AlreadyExists,
                    *n,
                ),
                None => !(self.spec_root() matches Some(root) && root.locate(key@).0
                    == InsertPosition::AlreadyExists),
            },
    {
        match self.goto_insert(key) {
            Some(InsertPositionWith::AlreadyExists(n)) => Some(n),
            _ => None,
        }
    }

    /// The node with the longest key that is a prefix of `key`.
    pub fn get_most_specific(&self, key: &BitKey) -> (r: Option<&Node<I, V>>)
        requires
            self.wf(),
        ensures
            match r {
                Some(n) => self.spec_root() matches Some(root) && root.most_specific(key@) == Some(
                    *n,
                ),
                None => !(self.spec_root() matches Some(root) && root.most_specific(key@) is Some),
            },
            self.lookup(key@) == match r {
                Some(n) => n.leaf_value(),
                None => None,
            },
    {
        proof {
            if self.node is Some {
                lemma_most_specific_lookup(self.node->0, key@);
            }
        }
        match &self.node {
            Some(n) => n.get_most_specific(key),
            None => None,
        }
    }

    /// Keys of the nodes whose keys are prefixes of `key`, from the root down.
    pub fn iter_path(&self, key: &BitKey) -> (r: Vec<BitKey>)
        requires
            self.wf(),
        ensures
            views(r@) == match self.spec_root() {
                Some(n) => n.path(key@),
                None => Seq::empty(),
            },
    {
        match &self.node {
            Some(n) => n.collect_path(key),
            None => Vec::new(),
        }
    }

    /// Leaves in order, with their values.
    pub fn iter_leaf(&self) -> (r: Vec<(BitKey, V)>)
        ensures
            pairs_view(r@) == self.leaves(),
    {
        let mut out: Vec<(BitKey, V)> = Vec::new();
        proof {
            assert(pairs_view(out@) =~= Seq::empty());
        }
        if let Some(n) = &self.node {
            n.collect_leaves(&mut out);
            proof {
                assert(pairs_view(out@) =~= n.leaves());
            }
        }
        out
    }

    /// Keys of all nodes, each node before its children.
    pub fn iter_pre_order(&self) -> (r: Vec<BitKey>)
        ensures
            views(r@) == match self.spec_root() {
                Some(n) => n.pre_order(),
                None => Seq::empty(),
            },
    {
        self.keys_in(0)
    }

    /// Keys of all nodes, each node between its children.
    pub fn iter_in_order(&self) -> (r: Vec<BitKey>)
        ensures
            views(r@) == match self.spec_root() {
                Some(n) => n.in_order(),
                None => Seq::empty(),
            },
    {
        self.keys_in(1)
    }

    /// Keys of all nodes, each node after its children.
    pub fn iter_post_order(&self) -> (r: Vec<BitKey>)
        ensures
            views(r@) == match self.spec_root() {
                Some(n) => n.post_order(),
                None => Seq::empty(),
            },
    {
        self.keys_in(2)
    }

    fn keys_in(&self, order: u8) -> (r: Vec<BitKey>)
        requires
            order < 3,
        ensures
            views(r@) == match self.spec_root() {
                Some(n) => if order == 0 {
                    n.pre_order()
                } else if order == 1 {
                    n.in_order()
                } else {
                    n.post_order()
                },
                None => Seq::empty(),
            },
    {
        let mut out: Vec<BitKey> = Vec::new();
        proof {
            assert(views(out@) =~= Seq::empty());
        }
        if let Some(n) = &self.node {
            n.collect_keys(order, &mut out);
            proof {
                assert(views(out@) =~= Seq::empty() + if order == 0 {
                    n.pre_order()
                } else if order == 1 {
                    n.in_order()
                } else {
                    n.post_order()
                });
            }
        }
        out
    }

    /// Leaves in order with their values, and between them the smallest
    /// list of prefixes that covers what no leaf covers, without a value.
    /// Together they cover every bit string exactly once, in order.
    #[verifier::rlimit(100)]
    #[verifier::spinoff_prover]
    pub fn iter_leaf_full(&self) -> (r: Vec<(BitKey, Option<V>)>)
        requires
            self.wf(),
        ensures
            present(opt_pairs_view(r@)) == self.leaves(),
            tiles(entry_keys(opt_pairs_view(r@)), Seq::empty(), Seq::empty()),
            gaps_minimal(opt_pairs_view(r@)),
    {
        let leaves = self.iter_leaf();
        let ghost lv = pairs_view(leaves@);
        proof {
            if self.node is Some {
                lemma_leaves_ordered(self.node->0);
            }
        }
        let mut out: Vec<(BitKey, Option<V>)> = Vec::new();
        let mut previous: Option<BitKey> = None;
        let mut i: usize = 0;
        proof {
            assert(present(opt_pairs_view(out@)) =~= lv.subrange(0, 0));
        }
        while i < leaves.len()
            invariant
                i <= leaves.len(),
                lv == pairs_view(leaves@),
                lv == self.leaves(),
                forall|j: int| 0 <= j < lv.len() - 1 ==> below(#[trigger] lv[j].0, lv[j + 1].0),
                present(opt_pairs_view(out@)) == lv.subrange(0, i as int),
                i == 0 ==> out@.len() == 0 && previous is None,
                gaps_minimal(opt_pairs_view(out@)),
                i > 0 ==> opt_pairs_view(out@).last().1 is Some,
                i > 0 ==> {
                    let ks = entry_keys(opt_pairs_view(out@));
                    &&& ks.len() > 0
                    &&& strip_zeros(ks[0]).len() == 0
                    &&& chained(ks)
                    &&& ks.last() == lv[i - 1].0
                    &&& previous matches Some(p) && p@ == lv[i - 1].0
                },
            decreases leaves.len() - i,
        {
            let key = leaves[i].0.duplicate();
            let value = leaves[i].1;
            proof {
                assert(key@ == lv[i as int].0);
            }
            let ghost prev_view = opt_view(previous);
            let gaps = iter_between(previous, Some(key.duplicate())).collect_vec();
            let ghost ks0 = entry_keys(opt_pairs_view(out@));
            let ghost g = views(gaps@);
            proof {
                if strip_zeros(key@).len() > 0 {
                    lemma_adjacent_next_down(key@);
                }
                if i > 0 {
                    lemma_gap_between(lv[i - 1].0, key@);
                    lemma_adjacent_next_up(lv[i - 1].0);
                }
            }
            let ghost o0 = opt_pairs_view(out@);
            push_uncovered(&mut out, &gaps);
            let ghost ks1 = entry_keys(opt_pairs_view(out@));
            proof {
                lemma_gaps_appended(o0, opt_pairs_view(out@), g);
                assert(ks1 =~= ks0 + g) by {
                    assert forall|j: int| 0 <= j < ks1.len() implies ks1[j] == (ks0 + g)[j] by {
                        if j >= ks0.len() {
                            assert(opt_pairs_view(out@)[ks0.len() + (j - ks0.len())] == (
                                gaps@[j - ks0.len()]@,
                                None::<V>,
                            ));
                        }
                    }
                }
                if g.len() > 0 {
                    assert(tiles(g, start_after(prev_view), end_before(Some(key@))));
                    assert(chained(g));
                }
                lemma_chain_append(ks0, g);
            }
            let ghost before = opt_pairs_view(out@);
            out.push((key.duplicate(), Some(value)));
            proof {
                let ks2 = entry_keys(opt_pairs_view(out@));
                assert(opt_pairs_view(out@).drop_last() =~= before);
                assert(ks2 =~= ks1 + seq![key@]);
                assert(chained(seq![key@]));
                if ks1.len() > 0 {
                    if g.len() > 0 {
                        assert(ks1.last() == g.last());
                    } else {
                        assert(ks1.last() == lv[i - 1].0);
                    }
                }
                lemma_chain_append(ks1, seq![key@]);
                let o2 = opt_pairs_view(out@);
                assert forall|j: int|
                    0 <= j < o2.len() - 1 && (#[trigger] o2[j]).1 is None && o2[j + 1].1 is None
                    implies !siblings(o2[j].0, o2[j + 1].0) by {
                    assert(o2[j] == before[j]);
                    assert(o2[j + 1] == before[j + 1]);
                }
                if i == 0 && g.len() > 0 {
                    assert(ks2[0] == g[0]);
                }
                assert(lv.subrange(0, i + 1) =~= lv.subrange(0, i as int).push((key@, value)));
            }
            previous = Some(key);
            i += 1;
        }
        let ghost prev_view = opt_view(previous);
        let gaps = iter_between(previous, None).collect_vec();
        let ghost ks0 = entry_keys(opt_pairs_view(out@));
        let ghost g = views(gaps@);
        proof {
            if i > 0 && strip_ones(lv[i - 1].0).len() > 0 {
                lemma_adjacent_next_up(lv[i - 1].0);
            }
        }
        let ghost o0 = opt_pairs_view(out@);
        push_uncovered(&mut out, &gaps);
        proof {
            lemma_gaps_appended(o0, opt_pairs_view(out@), g);
            let ks1 = entry_keys(opt_pairs_view(out@));
            assert(ks1 =~= ks0 + g) by {
                assert forall|j: int| 0 <= j < ks1.len() implies ks1[j] == (ks0 + g)[j] by {
                    if j >= ks0.len() {
                        assert(opt_pairs_view(out@)[ks0.len() + (j - ks0.len())] == (
                            gaps@[j - ks0.len()]@,
                            None::<V>,
                        ));
                    }
                }
            }
            if g.len() > 0 {
                assert(chained(g));
            }
            lemma_chain_append(ks0, g);
            if ks0.len() == 0 {
                assert(ks1 == g);
            } else {
                assert(ks1[0] == ks0[0]);
            }
            let e = Seq::<bool>::empty();
            assert(strip_zeros(e) == e);
            assert(strip_ones(e) == e);
            assert(shared_len(e, e) == 0);
            assert(!range_empty(e, e));
            if g.len() > 0 {
                assert(ks1.last() == g.last());
                assert(tiles(g, start_after(prev_view), e));
            } else {
                assert(ks1.last() == ks0.last());
                assert(i > 0);
                assert(!range_empty(next_up(lv[i - 1].0), e));
                assert(strip_ones(ks1.last()).len() == 0);
                assert(strip_ones(ks1.last()) =~= e);
            }
            if ks0.len() > 0 {
                assert(strip_zeros(ks1[0]) =~= e);
            }
            assert(chained(ks1));
            assert(ks1.len() > 0);
            assert(same_low(ks1[0], e));
            assert(same_high(ks1.last(), e));
            assert(tiles(ks1, e, e));
            assert(lv.subrange(0, leaves.len() as int) =~= lv);
        }
        out
    }

}

/// Append each prefix of `keys` without a value.
fn push_uncovered<V>(out: &mut Vec<(BitKey, Option<V>)>, keys: &Vec<BitKey>)
    ensures
        present(opt_pairs_view(final(out)@)) == present(opt_pairs_view(old(out)@)),
        final(out)@.len() == old(out)@.len() + keys@.len(),
        forall|i: int| 0 <= i < old(out)@.len() ==> #[trigger] final(out)@[i] == old(out)@[i],
        forall|j: int|
            0 <= j < keys@.len() ==> #[trigger] opt_pairs_view(final(out)@)[old(out)@.len() + j]
                == (keys@[j]@, None::<V>),
{
    let mut j: usize = 0;
    while j < keys.len()
        invariant
            j <= keys.len(),
            present(opt_pairs_view(out@)) == present(opt_pairs_view(old(out)@)),
            out@.len() == old(out)@.len() + j,
            forall|i: int| 0 <= i < old(out)@.len() ==> #[trigger] out@[i] == old(out)@[i],
            forall|i: int|
                0 <= i < j ==> #[trigger] opt_pairs_view(out@)[old(out)@.len() + i] == (
                    keys@[i]@,
                    None::<V>,
                ),
        decreases keys.len() - j,
    {
        let ghost before = opt_pairs_view(out@);
        out.push((keys[j].duplicate(), None));
        proof {
            assert(opt_pairs_view(out@).drop_last() =~= before);
            assert forall|i: int| 0 <= i < j + 1 implies #[trigger] opt_pairs_view(out@)[old(
                out,
            )@.len() + i] == (keys@[i]@, None::<V>) by {
                if i < j {
                    assert(opt_pairs_view(out@)[old(out)@.len() + i] == before[old(out)@.len() + i]);
                }
            }
        }
        j += 1;
    }
}

/// Appending a run of uncovered prefixes without sibling neighbours after an
/// entry with a value keeps the gaps minimal.
proof fn lemma_gaps_appended<V>(
    o0: Seq<(Seq<bool>, Option<V>)>,
    o1: Seq<(Seq<bool>, Option<V>)>,
    g: Seq<Seq<bool>>,
)
    requires
        gaps_minimal(o0),
        o0.len() > 0 ==> o0.last().1 is Some,
        no_siblings(g),
        o1.len() == o0.len() + g.len(),
        forall|i: int| 0 <= i < o0.len() ==> #[trigger] o1[i] == o0[i],
        forall|j: int| 0 <= j < g.len() ==> #[trigger] o1[o0.len() + j] == (g[j], None::<V>),
    ensures
        gaps_minimal(o1),
{
    assert forall|i: int|
        0 <= i < o1.len() - 1 && (#[trigger] o1[i]).1 is None && o1[i + 1].1 is None implies !siblings(
        o1[i].0,
        o1[i + 1].0,
    ) by {
        let m = o0.len() as int;
        if i + 1 < m {
            assert(o1[i] == o0[i] && o1[i + 1] == o0[i + 1]);
        } else if i + 1 == m {
            assert(o1[i] == o0[i]);
        } else {
            assert(o1[m + (i - m)] == (g[i - m], None::<V>));
            assert(o1[m + (i + 1 - m)] == (g[i + 1 - m], None::<V>));
        }
    }
}

/// The value of the leaf covering `q` is the leaf value of the deepest node
/// whose key is a prefix of `q`.
pub proof fn lemma_most_specific_lookup<I, V>(n: Node<I, V>, q: Seq<bool>)
    requires
        n.wf(),
    ensures
        n.lookup(q) == match n.most_specific(q) {
            Some(m) => m.leaf_value(),
            None => None,
        },
    decreases n,
{
    if is_prefix(n.key@, q) {
        match n.state {
            NodeState::Leaf { .. } => {},
            NodeState::InnerNode { left, right } => {
                if q.len() > n.key@.len() {
                    lemma_most_specific_lookup(*left, q);
                    lemma_most_specific_lookup(*right, q);
                }
            },
        }
    }
}

impl<I: Copy + Default, V: Copy, C: LeafValueComparer<V>> Tree<I, V, C> {
    /// Set the inner value of the node with exactly the key `key`; false
    /// when there is no such node.  Nothing else changes.
    pub fn set_value(&mut self, key: &BitKey, value: I) -> (r: bool)
        requires
            old(self).wf(),
        ensures
            final(self).wf(),
            final(self).properties() == old(self).properties(),
            final(self).leaves() == old(self).leaves(),
            forall|q: Seq<bool>| #[trigger] final(self).lookup(q) == old(self).lookup(q),
            r == old(self).values().contains_key(key@),
            final(self).values() == if r {
                old(self).values().insert(key@, value)
            } else {
                old(self).values()
            },
    {
        let mut root: Option<Node<I, V>> = None;
        core::mem::swap(&mut self.node, &mut root);
        match root {
            None => {
                proof {
                    assert(self.values() =~= Map::<Seq<bool>, I>::empty());
                }
                false
            },
            Some(n) => {
                let (n, found) = n.set_inner::<C>(key, value, Ghost(self.props));
                self.node = Some(n);
                found
            },
        }
    }
}

impl<I: Copy + Default, V: Copy + Default, C: LeafValueComparer<V>> Tree<I, V, C> {
    /// Make sure a node with exactly the key `key` exists, so that it can
    /// carry an inner value; new leaves get default leaf values.  Every inner
    /// value stays.
    ///
    /// Only for policies without `empty`: under `empty` inner values carry
    /// nothing, so no node is needed for one, and the new leaf beside an
    /// existing leaf could be one that ought to merge with it, which the
    /// tree's compression invariant forbids.
    pub fn insert_node(&mut self, key: &BitKey)
        requires
            old(self).wf(),
            !old(self).properties().empty,
        ensures
            final(self).wf(),
            final(self).properties() == old(self).properties(),
            final(self).values().contains_key(key@),
            old(self).values().submap_of(final(self).values()),
    {
        let mut root: Option<Node<I, V>> = None;
        core::mem::swap(&mut self.node, &mut root);
        let r = match root {
            None => Node::new_leaf(key.duplicate(), I::default(), V::default()),
            Some(n) => n.insert_node_rec::<C>(key, Ghost(self.props)),
        };
        proof {
            lemma_compressed_without_merging::<I, V, C>(r, self.props);
        }
        self.node = Some(r);
    }
}

impl<I: Copy + Default, V: Copy + Default, C: LeafValueComparer<V>> Tree<I, V, C> {
    /// Prune the tree after the inner value of the node `key` may have
    /// become empty (as `is_empty` judges, one answer per value): the node
    /// goes with an empty leaf child, or, as an empty leaf, with its empty
    /// parent; a parent whose children are both empty leaves becomes a leaf;
    /// an empty leaf at the root leaves the tree empty (see
    /// [`Node::compacted`]).
    ///
    /// Only for policies without `empty`: under `empty` inner values carry
    /// nothing, so there is nothing to prune by, and turning a parent into a
    /// leaf could leave two sibling leaves that ought to have merged.
    pub fn compact_if_empty<F: Fn(&I) -> bool>(&mut self, key: &BitKey, is_empty: F)
        requires
            old(self).wf(),
            !old(self).properties().empty,
            forall|v: &I| #[trigger] is_empty.requires((v,)),
            deterministic(is_empty),
        ensures
            final(self).wf(),
            final(self).properties() == old(self).properties(),
            final(self).values().submap_of(old(self).values()),
            match old(self).spec_root() {
                None => *final(self) == *old(self),
                Some(root) => if root.key_view() == key@ && root.spec_is_leaf() && judged_empty(
                    is_empty,
                    root.inner_value(),
                ) {
                    final(self).spec_root() is None
                } else {
                    final(self).spec_root() matches Some(r) && root.compacted(r, key@, is_empty)
                },
            },
            !(old(self).node_at(key@) matches Some(n) && is_empty.ensures(
                (&n.inner_value(),),
                true,
            )) ==> *final(self) == *old(self),
    {
        let mut root: Option<Node<I, V>> = None;
        core::mem::swap(&mut self.node, &mut root);
        let ghost old_root = root;
        match root {
            None => {},
            Some(n) => {
                if n.key.equals(key) && n.is_leaf() && is_empty(&n.value) {
                    // the root is an empty leaf: nothing is left
                    proof {
                        assert(n.key@.subrange(0, key@.len() as int) =~= key@);
                        assert(n.locate(key@) == (InsertPosition::AlreadyExists, n));
                        assert(self.values() =~= Map::<Seq<bool>, I>::empty());
                    }
                } else {
                    let r = n.compact_rec(key, &is_empty);
                    proof {
                        lemma_compressed_without_merging::<I, V, C>(r, self.props);
                    }
                    self.node = Some(r);
                }
            },
        }
    }
}

/// Where nothing merges, every tree is fully compressed.
proof fn lemma_compressed_without_merging<I, V, C: LeafValueComparer<V>>(
    n: Node<I, V>,
    p: TreeProperties,
)
    requires
        !p.empty,
    ensures
        n.compressed::<C>(p),
    decreases n,
{
    match n.state {
        NodeState::Leaf { .. } => {},
        NodeState::InnerNode { left, right } => {
            lemma_compressed_without_merging::<I, V, C>(*left, p);
            lemma_compressed_without_merging::<I, V, C>(*right, p);
        },
    }
}

/// The key of an entry.
pub open spec fn entry_key<V>(e: (Seq<bool>, V)) -> Seq<bool> {
    e.0
}

/// The entry with the longest key that is a prefix of `q`; of equal keys
/// the later one.
pub open spec fn longest_entry<V>(entries: Seq<(Seq<bool>, V)>, q: Seq<bool>) -> Option<(Seq<bool>, V)>
    decreases entries.len(),
{
    if entries.len() == 0 {
        None
    } else {
        let e = entries.last();
        let rest = longest_entry(entries.drop_last(), q);
        if is_prefix(e.0, q) && (rest is None || entry_key(rest->0).len() <= e.0.len()) {
            Some(e)
        } else {
            rest
        }
    }
}

/// The last entry whose key is a prefix of `q`.
pub open spec fn last_entry<V>(entries: Seq<(Seq<bool>, V)>, q: Seq<bool>) -> Option<(Seq<bool>, V)>
    decreases entries.len(),
{
    if entries.len() == 0 {
        None
    } else if is_prefix(entries.last().0, q) {
        Some(entries.last())
    } else {
        last_entry(entries.drop_last(), q)
    }
}

/// No key is inserted after a key that it is a strict prefix of.
pub open spec fn prefixes_first<V>(entries: Seq<(Seq<bool>, V)>) -> bool {
    forall|i: int, j: int|
        0 <= i < j < entries.len() ==> !strict_prefix(#[trigger] entries[j].0, #[trigger] entries[i].0)
}

proof fn lemma_last_is_longest<V>(entries: Seq<(Seq<bool>, V)>, q: Seq<bool>)
    requires
        prefixes_first(entries),
    ensures
        last_entry(entries, q) == longest_entry(entries, q),
        longest_entry(entries, q) matches Some(e) ==> is_prefix(e.0, q),
    decreases entries.len(),
{
    if entries.len() > 0 {
        let init = entries.drop_last();
        assert(prefixes_first(init)) by {
            assert forall|i: int, j: int| 0 <= i < j < init.len() implies !strict_prefix(
                #[trigger] init[j].0,
                #[trigger] init[i].0,
            ) by {
                assert(init[i] == entries[i] && init[j] == entries[j]);
            }
        }
        lemma_last_is_longest(init, q);
        let e = entries.last();
        if is_prefix(e.0, q) {
            if let Some(r) = longest_entry(init, q) {
                lemma_entry_index(init, q);
                let i = choose|i: int| 0 <= i < init.len() && init[i] == r;
                assert(entries[i] == r);
                assert(!strict_prefix(entries[entries.len() - 1].0, entries[i].0));
                if r.0.len() > e.0.len() {
                    assert(is_prefix(e.0, r.0)) by {
                        assert(r.0.subrange(0, e.0.len() as int) =~= q.subrange(0, e.0.len() as int));
                    }
                }
            }
        }
    }
}

proof fn lemma_entry_index<V>(entries: Seq<(Seq<bool>, V)>, q: Seq<bool>)
    ensures
        longest_entry(entries, q) matches Some(e) ==> exists|i: int|
            0 <= i < entries.len() && entries[i] == e,
    decreases entries.len(),
{
    if entries.len() > 0 {
        let init = entries.drop_last();
        lemma_entry_index(init, q);
        if let Some(e) = longest_entry(entries, q) {
            if e == entries.last() {
                assert(entries[entries.len() - 1] == e);
            } else {
                let i = choose|i: int| 0 <= i < init.len() && init[i] == e;
                assert(entries[i] == e);
            }
        }
    }
}

/// Longest-prefix match: when `trees` start empty and each comes from the one
/// before by setting the next entry of `entries`, and no key is inserted
/// after a key it is a strict prefix of, the last tree maps `q` to the value
/// of the longest inserted key that is a prefix of `q` (none if there is no
/// such key).  Leaf values must count (no `leaf_empty` policy), and `q` must
/// not be a strict prefix of an inserted key: such a `q` is only partly
/// covered.
pub proof fn lemma_longest_prefix_match<I: Copy + Default, V: Copy, C: LeafValueComparer<V>>(
    trees: Seq<Tree<I, V, C>>,
    entries: Seq<(Seq<bool>, V)>,
    q: Seq<bool>,
)
    requires
        trees.len() == entries.len() + 1,
        trees[0].spec_root().is_none(),
        !trees[0].properties().leaf_empty,
        forall|i: int|
            0 <= i < entries.len() ==> #[trigger] trees[i + 1].inserted_from(
                trees[i],
                entries[i].0,
                entries[i].1,
            ),
        prefixes_first(entries),
        forall|i: int| 0 <= i < entries.len() ==> !strict_prefix(q, #[trigger] entries[i].0),
    ensures
        trees.last().lookup(q) == match longest_entry(entries, q) {
            Some(e) => Some(e.1),
            None => None,
        },
{
    lemma_last_is_longest(entries, q);
    lemma_lookup_is_last(trees, entries, q, entries.len() as int);
    assert(entries.subrange(0, entries.len() as int) =~= entries);
}

proof fn lemma_lookup_is_last<I: Copy + Default, V: Copy, C: LeafValueComparer<V>>(
    trees: Seq<Tree<I, V, C>>,
    entries: Seq<(Seq<bool>, V)>,
    q: Seq<bool>,
    n: int,
)
    requires
        0 <= n <= entries.len(),
        trees.len() == entries.len() + 1,
        trees[0].spec_root().is_none(),
        !trees[0].properties().leaf_empty,
        forall|i: int|
            0 <= i < entries.len() ==> #[trigger] trees[i + 1].inserted_from(
                trees[i],
                entries[i].0,
                entries[i].1,
            ),
        forall|i: int| 0 <= i < entries.len() ==> !strict_prefix(q, #[trigger] entries[i].0),
    ensures
        trees[n].properties() == trees[0].properties(),
        trees[n].lookup(q) == match last_entry(entries.subrange(0, n), q) {
            Some(e) => Some(e.1),
            None => None,
        },
    decreases n,
{
    if n > 0 {
        lemma_lookup_is_last(trees, entries, q, n - 1);
        assert(entries.subrange(0, n).drop_last() =~= entries.subrange(0, n - 1));
        let i = n - 1;
        assert(trees[i + 1].inserted_from(trees[i], entries[i].0, entries[i].1));
        assert(trees[i + 1] == trees[n]);
        let p = trees[0].properties();
        assert(inserted(p, entries[i].0, entries[i].1, trees[i].lookup(q), trees[n].lookup(q), q));
        assert(!strict_prefix(q, entries[n - 1].0));
    }
}

/// Setting the same value for the same key twice gives the same tree as
/// setting it once.
pub proof fn lemma_insert_idempotent<I: Copy + Default, V: Copy, C: LeafValueComparer<V>>(
    t0: Tree<I, V, C>,
    t1: Tree<I, V, C>,
    t2: Tree<I, V, C>,
    key: Seq<bool>,
    value: V,
)
    requires
        t1.inserted_from(t0, key, value),
        t2.inserted_from(t1, key, value),
    ensures
        t2 == t1,
{
}

/// `a` lies wholly below `b`: they differ first at a position where `a` has
/// a 0 and `b` a 1.
pub open spec fn below(a: Seq<bool>, b: Seq<bool>) -> bool {
    let d = shared_len(a, b);
    d < a.len() && d < b.len() && !a[d as int] && b[d as int]
}

/// Each prefix of `s` is followed by the one whose values come right after.
pub open spec fn chained(s: Seq<Seq<bool>>) -> bool {
    forall|i: int| 0 <= i < s.len() - 1 ==> adjacent(#[trigger] s[i], s[i + 1])
}

/// No two neighbouring entries without a value are siblings: each run of
/// uncovered prefixes is as short as it can be.
pub open spec fn gaps_minimal<V>(v: Seq<(Seq<bool>, Option<V>)>) -> bool {
    forall|i: int|
        0 <= i < v.len() - 1 && (#[trigger] v[i]).1 is None && v[i + 1].1 is None ==> !siblings(
            v[i].0,
            v[i + 1].0,
        )
}

/// The keys of a list of entries.
pub open spec fn entry_keys<V>(v: Seq<(Seq<bool>, Option<V>)>) -> Seq<Seq<bool>> {
    v.map_values(|e: (Seq<bool>, Option<V>)| e.0)
}

/// The keys of the leaves below `n` all start with its key, and each leaf
/// lies wholly below the next.
proof fn lemma_leaves_ordered<I, V>(n: Node<I, V>)
    requires
        n.wf(),
    ensures
        n.leaves().len() > 0,
        forall|i: int| 0 <= i < n.leaves().len() ==> is_prefix(n.key@, #[trigger] n.leaves()[i].0),
        forall|i: int|
            0 <= i < n.leaves().len() - 1 ==> below(#[trigger] n.leaves()[i].0, n.leaves()[i + 1].0),
    decreases n,
{
    match n.state {
        NodeState::Leaf { .. } => {
            assert(n.key@.subrange(0, n.key@.len() as int) =~= n.key@);
        },
        NodeState::InnerNode { left, right } => {
            lemma_leaves_ordered(*left);
            lemma_leaves_ordered(*right);
            let ll = left.leaves();
            let rl = right.leaves();
            let all = n.leaves();
            assert(all == ll + rl);
            let k = n.key@;
            let m = k.len() as int;
            assert forall|i: int| 0 <= i < all.len() implies is_prefix(k, #[trigger] all[i].0) by {
                if i < ll.len() {
                    lemma_prefix_trans(k, left.key@, ll[i].0);
                } else {
                    assert(all[i] == rl[i - ll.len()]);
                    lemma_prefix_trans(k, right.key@, rl[i - ll.len()].0);
                }
            }
            assert forall|i: int| 0 <= i < all.len() - 1 implies below(
                #[trigger] all[i].0,
                all[i + 1].0,
            ) by {
                if i < ll.len() - 1 {
                    assert(all[i] == ll[i] && all[i + 1] == ll[i + 1]);
                } else if i >= ll.len() {
                    assert(all[i] == rl[i - ll.len()] && all[i + 1] == rl[i - ll.len() + 1]);
                } else {
                    let a = ll[i].0;
                    let b = rl[0].0;
                    assert(all[i + 1] == rl[0]);
                    lemma_prefix_index(left.key@, a, m);
                    lemma_prefix_index(right.key@, b, m);
                    lemma_prefix_trans(k, left.key@, a);
                    lemma_prefix_trans(k, right.key@, b);
                    assert forall|j: int| 0 <= j < m implies a[j] == b[j] by {
                        lemma_prefix_index(k, a, j);
                        lemma_prefix_index(k, b, j);
                    }
                    lemma_shared_len_exact(a, b, m as nat);
                }
            }
        },
    }
}

/// Between two keys with `a` wholly below `b` there are values after `a`
/// and before `b`; when none lie strictly between them, they are adjacent.
proof fn lemma_gap_between(a: Seq<bool>, b: Seq<bool>)
    requires
        below(a, b),
    ensures
        strip_ones(a).len() > 0,
        strip_zeros(b).len() > 0,
        range_empty(next_up(a), next_down(b)) ==> adjacent(a, b),
{
    let d = shared_len(a, b) as int;
    lemma_shared_len_props(a, b);
    lemma_strip_ones_shape(a);
    lemma_strip_zeros_shape(b);
    let x = strip_ones(a);
    let y = strip_zeros(b);
    if x.len() <= d {
        assert(a[d]);
    }
    if y.len() <= d {
        assert(!b[d]);
    }
    let u = next_up(a);
    let w = next_down(b);
    assert(strip_zeros(u) == u);
    assert(strip_ones(w) == w);
    assert forall|j: int| 0 <= j < x.len() implies x[j] == a[j] by {
        lemma_prefix_index(x, a, j);
    }
    assert forall|j: int| 0 <= j < y.len() implies y[j] == b[j] by {
        lemma_prefix_index(y, b, j);
    }
    if range_empty(next_up(a), next_down(b)) {
        if x.len() - 1 > d {
            assert(u[d] == a[d]);
            assert forall|j: int| 0 <= j < d implies u[j] == w[j] by {
                assert(w[j] == b[j]);
            }
            if y.len() - 1 > d {
                assert(w[d] == b[d]);
                lemma_shared_len_exact(u, w, d as nat);
            } else {
                assert(w[d] == false);
                assert forall|j: int| 0 <= j < d + 1 implies u[j] == w[j] by {}
                lemma_shared_len_exact(u, w, (d + 1) as nat);
            }
        } else if y.len() - 1 > d {
            assert(w[d] == b[d]);
            assert(u[d] == true);
            assert forall|j: int| 0 <= j < d + 1 implies u[j] == w[j] by {
                if j < d {
                    assert(u[j] == a[j]);
                    assert(w[j] == b[j]);
                }
            }
            lemma_shared_len_exact(u, w, (d + 1) as nat);
        } else {
            assert(x.drop_last() =~= y.drop_last()) by {
                assert forall|j: int| 0 <= j < d implies x[j] == y[j] by {}
            }
        }
    }
}

/// Joining two chains where the first ends right before the second starts
/// gives a chain.
proof fn lemma_chain_append(a: Seq<Seq<bool>>, b: Seq<Seq<bool>>)
    requires
        chained(a),
        chained(b),
        a.len() > 0 && b.len() > 0 ==> adjacent(a.last(), b[0]),
    ensures
        chained(a + b),
{
    let c = a + b;
    assert forall|i: int| 0 <= i < c.len() - 1 implies adjacent(#[trigger] c[i], c[i + 1]) by {
        if i < a.len() - 1 {
            assert(c[i] == a[i] && c[i + 1] == a[i + 1]);
        } else if i >= a.len() {
            assert(c[i] == b[i - a.len()] && c[i + 1] == b[i - a.len() + 1]);
        } else {
            assert(c[i] == a.last() && c[i + 1] == b[0]);
        }
    }
}

/// The prefix right after `a` starts where `a` ends.
proof fn lemma_adjacent_next_up(a: Seq<bool>)
    requires
        strip_ones(a).len() > 0,
    ensures
        adjacent(a, next_up(a)),
{
    lemma_strip_ones_shape(a);
    let u = next_up(a);
    assert(strip_zeros(u) == u);
    assert(u.drop_last() =~= strip_ones(a).drop_last());
}

/// The prefix right before `b` ends where `b` starts.
proof fn lemma_adjacent_next_down(b: Seq<bool>)
    requires
        strip_zeros(b).len() > 0,
    ensures
        adjacent(next_down(b), b),
{
    lemma_strip_zeros_shape(b);
    let w = next_down(b);
    assert(strip_ones(w) == w);
    assert(w.drop_last() =~= strip_zeros(b).drop_last());
}

/// Every key with an inner value below `n` starts with its key.
proof fn lemma_values_keys<I, V>(n: Node<I, V>)
    requires
        n.wf(),
    ensures
        forall|k: Seq<bool>| #[trigger] n.values().contains_key(k) ==> is_prefix(n.key@, k),
        n.values().contains_key(n.key@),
        n.values()[n.key@] == n.value,
    decreases n,
{
    assert(n.key@.subrange(0, n.key@.len() as int) =~= n.key@);
    match n.state {
        NodeState::Leaf { .. } => {},
        NodeState::InnerNode { left, right } => {
            lemma_values_keys(*left);
            lemma_values_keys(*right);
            assert forall|k: Seq<bool>| #[trigger] n.values().contains_key(k) implies is_prefix(
                n.key@,
                k,
            ) by {
                if left.values().contains_key(k) {
                    lemma_prefix_trans(n.key@, left.key@, k);
                }
                if right.values().contains_key(k) {
                    lemma_prefix_trans(n.key@, right.key@, k);
                }
            }
        },
    }
}

/// The values below each child of an inner node are part of its values.
proof fn lemma_values_child<I, V>(n: Node<I, V>)
    requires
        n.wf(),
        !n.spec_is_leaf(),
    ensures
        n.spec_left().values().submap_of(n.values()),
        n.spec_right().values().submap_of(n.values()),
{
    let l = n.spec_left();
    let r = n.spec_right();
    lemma_values_keys(l);
    lemma_values_keys(r);
    let m = n.key@.len() as int;
    assert forall|k: Seq<bool>| #[trigger] l.values().contains_key(k) implies n.values().contains_key(
        k,
    ) && n.values()[k] == l.values()[k] by {
        lemma_prefix_index(l.key@, k, m);
        if r.values().contains_key(k) {
            lemma_prefix_index(r.key@, k, m);
        }
        assert(k != n.key@);
    }
    assert forall|k: Seq<bool>| #[trigger] r.values().contains_key(k) implies n.values().contains_key(
        k,
    ) && n.values()[k] == r.values()[k] by {
        assert(k.len() > m) by {
            lemma_prefix_index(r.key@, k, m);
        }
    }
}

/// Replacing one child by a subtree whose values are part of the old
/// child's keeps the values a part of the old node's.
proof fn lemma_values_replace_child<I, V>(old: Node<I, V>, new: Node<I, V>, side: bool)
    requires
        old.wf(),
        new.wf(),
        !old.spec_is_leaf(),
        !new.spec_is_leaf(),
        new.key@ == old.key@,
        new.value == old.value,
        side ==> new.spec_left() == old.spec_left() && new.spec_right().values().submap_of(
            old.spec_right().values(),
        ),
        !side ==> new.spec_right() == old.spec_right() && new.spec_left().values().submap_of(
            old.spec_left().values(),
        ),
    ensures
        new.values().submap_of(old.values()),
{
    lemma_values_child(old);
    lemma_values_keys(new.spec_left());
    lemma_values_keys(new.spec_right());
    let m = old.key@.len() as int;
    assert forall|k: Seq<bool>| #[trigger] new.values().contains_key(k) implies old.values().contains_key(
        k,
    ) && old.values()[k] == new.values()[k] by {
        if k != new.key@ {
            if new.spec_right().values().contains_key(k) {
                assert(old.spec_right().values().contains_key(k) || side == false);
            } else {
                assert(new.spec_left().values().contains_key(k));
                if new.spec_left().values().contains_key(k) && old.spec_right().values().contains_key(k) {
                    lemma_values_keys(old.spec_right());
                    lemma_prefix_index(old.spec_right().key@, k, m);
                    lemma_prefix_index(new.spec_left().key@, k, m);
                }
            }
        }
    }
}

/// A new parent over `old` and a new leaf keeps the values of `old` and
/// holds the leaf's key.
proof fn lemma_values_sibling<I, V>(old: Node<I, V>, new: Node<I, V>, leaf_key: Seq<bool>)
    requires
        old.wf(),
        new.wf(),
        !new.spec_is_leaf(),
        strict_prefix(new.key@, old.key@),
        new.spec_left() == old || new.spec_right() == old,
        new.spec_left() == old ==> new.spec_right().key_view() == leaf_key && new.spec_right().spec_is_leaf(),
        new.spec_right() == old ==> new.spec_left().key_view() == leaf_key && new.spec_left().spec_is_leaf(),
    ensures
        new.values().contains_key(leaf_key),
        old.values().submap_of(new.values()),
{
    lemma_values_keys(old);
    lemma_values_keys(new.spec_left());
    lemma_values_keys(new.spec_right());
    let m = new.key@.len() as int;
    let other = if new.spec_left() == old { new.spec_right() } else { new.spec_left() };
    assert(other.values() =~= map![leaf_key => other.value]);
    assert forall|k: Seq<bool>| #[trigger] old.values().contains_key(k) implies new.values().contains_key(
        k,
    ) && new.values()[k] == old.values()[k] by {
        lemma_prefix_index(old.key@, k, m);
        assert(k != new.key@);
        if k == leaf_key {
            lemma_prefix_index(old.key@, k, m);
        }
    }
}

/// Growing the values of one child grows the values of the node.
proof fn lemma_values_grow_child<I, V>(old: Node<I, V>, new: Node<I, V>, side: bool)
    requires
        old.wf(),
        new.wf(),
        !old.spec_is_leaf(),
        !new.spec_is_leaf(),
        new.key@ == old.key@,
        new.value == old.value,
        side ==> new.spec_left() == old.spec_left() && old.spec_right().values().submap_of(
            new.spec_right().values(),
        ),
        !side ==> new.spec_right() == old.spec_right() && old.spec_left().values().submap_of(
            new.spec_left().values(),
        ),
    ensures
        old.values().submap_of(new.values()),
{
    lemma_values_keys(old.spec_left());
    lemma_values_keys(old.spec_right());
    lemma_values_keys(new.spec_left());
    lemma_values_keys(new.spec_right());
    let m = old.key@.len() as int;
    assert forall|k: Seq<bool>| #[trigger] old.values().contains_key(k) implies new.values().contains_key(
        k,
    ) && new.values()[k] == old.values()[k] by {
        if k != old.key@ {
            if old.spec_left().values().contains_key(k) {
                lemma_prefix_index(old.spec_left().key@, k, m);
                if new.spec_right().values().contains_key(k) {
                    lemma_prefix_index(new.spec_right().key@, k, m);
                }
            } else {
                lemma_prefix_index(old.spec_right().key@, k, m);
                if new.spec_right().values().contains_key(k) {
                } else {
                    assert(new.spec_left().values().contains_key(k));
                    lemma_prefix_index(new.spec_left().key@, k, m);
                }
            }
        }
    }
}

/// Pruning inside the child on the side of `key` prunes the node the same
/// way, with the node rebuilt around the new child.
proof fn lemma_compacted_step<I, V, F: Fn(&I) -> bool>(
    me: Node<I, V>,
    child: Node<I, V>,
    new_child: Node<I, V>,
    r: Node<I, V>,
    key: Seq<bool>,
    f: F,
    side: bool,
)
    requires
        me.wf(),
        !me.spec_is_leaf(),
        strict_prefix(me.key@, key),
        side == key[me.key@.len() as int],
        child == if side { me.spec_right() } else { me.spec_left() },
        !(child.key@ == key && child.spec_is_leaf() && judged_empty(f, child.value)),
        child.compacted(new_child, key, f),
        r.key == me.key,
        r.value == me.value,
        side ==> r.state == (NodeState::InnerNode { left: Box::new(me.spec_left()), right: Box::new(new_child) }),
        !side ==> r.state == (NodeState::InnerNode { left: Box::new(new_child), right: Box::new(me.spec_right()) }),
    ensures
        me.compacted(r, key, f),
{
    assert(me.locate(key) == child.locate(key));
    assert(me.key@ != key);
    if child.key@ != key {
        assert(me.parent_of(key) == child.parent_of(key));
    }
    assert forall|at: Seq<bool>, sub: Node<I, V>|
        is_prefix(child.key@, at) implies #[trigger] me.replaced(at, sub) == (if side {
            Node { key: me.key, value: me.value, state: NodeState::InnerNode { left: Box::new(me.spec_left()), right: Box::new(child.replaced(at, sub)) } }
        } else {
            Node { key: me.key, value: me.value, state: NodeState::InnerNode { left: Box::new(child.replaced(at, sub)), right: Box::new(me.spec_right()) } }
        }) by {
        let n = me.key@.len() as int;
        lemma_prefix_trans(me.key@, child.key@, at);
        lemma_prefix_index(child.key@, at, n);
        assert(at.len() > n);
    }
    if new_child == child {
        assert(r == me);
    }
    lemma_parent_below(child, key);
    if child.locate(key).0 == InsertPosition::AlreadyExists {
        assert(is_prefix(child.key@, key));
    }
}

/// The parent found below `n` is `n` or lies below it, and is an inner node
/// whose key is a strict prefix of `at`.
proof fn lemma_parent_below<I, V>(n: Node<I, V>, at: Seq<bool>)
    requires
        n.wf(),
    ensures
        n.parent_of(at) matches Some(p) ==> is_prefix(n.key@, p.key@) && strict_prefix(p.key@, at)
            && !p.spec_is_leaf(),
    decreases n,
{
    assert(n.key@.subrange(0, n.key@.len() as int) =~= n.key@);
    match n.state {
        NodeState::Leaf { .. } => {},
        NodeState::InnerNode { left, right } => {
            if strict_prefix(n.key@, at) {
                let c = if at[n.key@.len() as int] { *right } else { *left };
                if c.key@ != at {
                    lemma_parent_below(c, at);
                    if let Some(p) = c.parent_of(at) {
                        lemma_prefix_trans(n.key@, c.key@, p.key@);
                    }
                }
            }
        },
    }
}

/// The search for `key` in a chain for `key` ends at its bottom leaf.
proof fn lemma_chain_locate<I, V>(n: Node<I, V>, l: nat, key: Seq<bool>, side: V, bottom: V)
    requires
        l <= key.len(),
        n.is_chain(l, key.len(), key, side, bottom),
    ensures
        n.locate(key).0 == InsertPosition::AlreadyExists,
        n.locate(key).1.state is Leaf,
        n.locate(key).1.key@ == key,
        n.locate(key).1.leaf_value() == Some(bottom),
    decreases key.len() - l,
{
    if l >= key.len() {
        assert(key.subrange(0, key.len() as int) =~= key);
    } else {
        assert(key.subrange(0, l as int) == n.key@);
        match n.state {
            NodeState::InnerNode { left, right } => {
                let on = if key[l as int] { *right } else { *left };
                lemma_chain_locate(on, l + 1, key, side, bottom);
            },
            NodeState::Leaf { .. } => {},
        }
    }
}

/// A chain for `key` holds no key strictly below `key`.
proof fn lemma_chain_values<I, V>(n: Node<I, V>, l: nat, key: Seq<bool>, side: V, bottom: V)
    requires
        l <= key.len(),
        n.is_chain(l, key.len(), key, side, bottom),
    ensures
        none_below(n.values(), key),
    decreases key.len() - l,
{
    if l < key.len() {
        match n.state {
            NodeState::InnerNode { left, right } => {
                let on = if key[l as int] { *right } else { *left };
                let off = if key[l as int] { *left } else { *right };
                lemma_chain_values(on, l + 1, key, side, bottom);
                assert(off.values() =~= map![off.key@ => off.value]);
                assert forall|k: Seq<bool>| #[trigger] n.values().contains_key(k) implies !strict_prefix(
                    key,
                    k,
                ) by {
                    if k == off.key@ && strict_prefix(key, k) {
                        lemma_prefix_index(key, k, l as int);
                    }
                }
            },
            NodeState::Leaf { .. } => {},
        }
    } else {
        assert(n.values() =~= map![n.key@ => n.value]);
    }
}

/// The values of a node whose child on the side of `key` was replaced by one
/// with no key strictly below `key` (and keeping, where asked, the keys
/// beside `key`) have the same properties.
proof fn lemma_insert_step_values<I, V>(
    me: Node<I, V>,
    node: Node<I, V>,
    key: Seq<bool>,
    side: bool,
    keep: bool,
)
    requires
        me.wf(),
        node.wf(),
        !me.spec_is_leaf(),
        !node.spec_is_leaf(),
        strict_prefix(me.key@, key),
        side == key[me.key@.len() as int],
        node.key == me.key,
        node.value == me.value,
        side ==> node.spec_left() == me.spec_left(),
        !side ==> node.spec_right() == me.spec_right(),
        none_below((if side { node.spec_right() } else { node.spec_left() }).values(), key),
        keep ==> kept_beside(
            (if side { me.spec_right() } else { me.spec_left() }).values(),
            (if side { node.spec_right() } else { node.spec_left() }).values(),
            key,
        ),
    ensures
        none_below(node.values(), key),
        keep ==> kept_beside(me.values(), node.values(), key),
{
    let m = me.key@.len() as int;
    let nc = if side { node.spec_right() } else { node.spec_left() };
    let oc = if side { me.spec_right() } else { me.spec_left() };
    let other = if side { me.spec_left() } else { me.spec_right() };
    lemma_values_keys(nc);
    lemma_values_keys(oc);
    lemma_values_keys(other);
    assert forall|k: Seq<bool>| #[trigger] node.values().contains_key(k) implies !strict_prefix(key, k) by {
        if other.values().contains_key(k) && strict_prefix(key, k) {
            lemma_prefix_index(other.key@, k, m);
            lemma_prefix_index(key, k, m);
        }
    }
    if keep {
        assert forall|k: Seq<bool>| #[trigger] me.values().contains_key(k) && !is_prefix(key, k) implies node.values().contains_key(k) && node.values()[k] == me.values()[k] by {
            if k != me.key@ {
                if oc.values().contains_key(k) {
                    lemma_prefix_index(oc.key@, k, m);
                    assert(nc.values().contains_key(k));
                    if other.values().contains_key(k) {
                        lemma_prefix_index(other.key@, k, m);
                    }
                } else {
                    assert(other.values().contains_key(k));
                    lemma_prefix_index(other.key@, k, m);
                    if nc.values().contains_key(k) {
                        lemma_prefix_index(nc.key@, k, m);
                    }
                }
            }
        }
    }
}

/// The keys in a chain down to `stop` are no longer than `stop`, but for
/// the bottom leaf's key.
proof fn lemma_chain_keys<I, V>(n: Node<I, V>, l: nat, stop: nat, key: Seq<bool>, side: V, bottom: V)
    requires
        l <= stop <= key.len(),
        n.is_chain(l, stop, key, side, bottom),
    ensures
        forall|k: Seq<bool>| #[trigger] n.values().contains_key(k) ==> k.len() <= stop || k == key,
    decreases stop - l,
{
    if l < stop {
        match n.state {
            NodeState::InnerNode { left, right } => {
                let on = if key[l as int] { *right } else { *left };
                let off = if key[l as int] { *left } else { *right };
                lemma_chain_keys(on, l + 1, stop, key, side, bottom);
                assert(off.values() =~= map![off.key@ => off.value]);
                assert(n.key@.len() == l);
                assert(off.key@.len() == l + 1);
                assert forall|k: Seq<bool>| #[trigger] n.values().contains_key(k) implies k.len() <= stop
                    || k == key by {
                    if k != n.key@ {
                        if off.values().contains_key(k) {
                            assert(k == off.key@);
                        } else {
                            assert(on.values().contains_key(k));
                        }
                    }
                }
            },
            NodeState::Leaf { .. } => {},
        }
    } else {
        assert(n.values() =~= map![n.key@ => n.value]);
    }
}

/// After removing `key` inside the child on its side (leaving `rest`), the
/// node rebuilt around `rest`, or the other child in its place, holds no key
/// starting with `key`, and agrees with the node on the inner values of the
/// keys both hold.
proof fn lemma_remove_step_values<I, V>(
    me: Node<I, V>,
    child: Node<I, V>,
    other: Node<I, V>,
    rest: Option<Node<I, V>>,
    r: Node<I, V>,
    key: Seq<bool>,
    side: bool,
)
    requires
        me.wf(),
        !me.spec_is_leaf(),
        strict_prefix(me.key@, key),
        side == key[me.key@.len() as int],
        child == (if side { me.spec_right() } else { me.spec_left() }),
        other == (if side { me.spec_left() } else { me.spec_right() }),
        rest matches Some(c) ==> none_from(c.values(), key) && agree(c.values(), child.values())
            && c.wf() && is_prefix(child.key@, c.key@),
        rest is None ==> r == other,
        rest matches Some(c) ==> r.key == me.key && r.value == me.value && r.state == (if side {
            NodeState::InnerNode { left: Box::new(other), right: Box::new(c) }
        } else {
            NodeState::InnerNode { left: Box::new(c), right: Box::new(other) }
        }),
    ensures
        none_from(r.values(), key),
        agree(r.values(), me.values()),
{
    let m = me.key@.len() as int;
    lemma_values_child(me);
    lemma_values_keys(other);
    lemma_values_keys(child);
    assert forall|k: Seq<bool>| #[trigger] other.values().contains_key(k) implies !is_prefix(key, k) by {
        lemma_prefix_index(other.key@, k, m);
        if is_prefix(key, k) {
            lemma_prefix_index(key, k, m);
        }
    }
    if let Some(c) = rest {
        lemma_values_keys(c);
        assert forall|k: Seq<bool>| #[trigger] r.values().contains_key(k) implies !is_prefix(key, k) by {
        }
        assert forall|k: Seq<bool>| #[trigger] r.values().contains_key(k) && me.values().contains_key(k)
            implies r.values()[k] == me.values()[k] by {
            if k != me.key@ {
                if c.values().contains_key(k) {
                    lemma_prefix_trans(child.key@, c.key@, k);
                    lemma_prefix_index(child.key@, k, m);
                    if other.values().contains_key(k) {
                        lemma_prefix_index(other.key@, k, m);
                    }
                    if !child.values().contains_key(k) {
                        assert(other.values().contains_key(k));
                        lemma_prefix_index(other.key@, k, m);
                    }
                } else {
                    assert(other.values().contains_key(k));
                }
            }
        }
    }
}

} // verus!
