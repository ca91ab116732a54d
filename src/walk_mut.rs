//! Either a node or the tree itself, as a walk position.
use vstd::prelude::*;

verus! {

/// Position of a walk: at a node, or at the tree above its root.
pub enum NodeOrTree<T, N> {
    /// At a node
    Node(N),
    /// At the tree
    Tree(T),
}

impl<T, N> NodeOrTree<T, N> {
    /// Map the tree value, keep a node as it is.
    pub fn map_tree<F, U>(self, f: F) -> (r: NodeOrTree<U, N>)
        where
            F: FnOnce(T) -> U,
        requires
            self matches NodeOrTree::Tree(t) ==> f.requires((t,)),
        ensures
            match self {
                NodeOrTree::Tree(t) => r matches NodeOrTree::Tree(u) && f.ensures((t,), u),
                NodeOrTree::Node(n) => r == NodeOrTree::<U, N>::Node(n),
            },
    {
        match self {
            NodeOrTree::Tree(t) => NodeOrTree::Tree(f(t)),
            NodeOrTree::Node(n) => NodeOrTree::Node(n),
        }
    }

    /// Map the node value, keep the tree as it is.
    pub fn map_node<F, U>(self, f: F) -> (r: NodeOrTree<T, U>)
        where
            F: FnOnce(N) -> U,
        requires
            self matches NodeOrTree::Node(n) ==> f.requires((n,)),
        ensures
            match self {
                NodeOrTree::Tree(t) => r == NodeOrTree::<T, U>::Tree(t),
                NodeOrTree::Node(n) => r matches NodeOrTree::Node(u) && f.ensures((n,), u),
            },
    {
        match self {
            NodeOrTree::Tree(t) => NodeOrTree::Tree(t),
            NodeOrTree::Node(n) => NodeOrTree::Node(f(n)),
        }
    }

    /// The node, if the position is at one.
    pub fn node(self) -> (r: Option<N>)
        ensures
            match self {
                NodeOrTree::Tree(_) => r.is_none(),
                NodeOrTree::Node(n) => r == Some(n),
            },
    {
        match self {
            NodeOrTree::Tree(_) => None,
            NodeOrTree::Node(n) => Some(n),
        }
    }
}

impl<N> NodeOrTree<N, N> {
    /// The value held, tree or node alike.
    pub fn flatten(self) -> (r: N)
        ensures
            match self {
                NodeOrTree::Tree(t) => r == t,
                NodeOrTree::Node(n) => r == n,
            },
    {
        match self {
            NodeOrTree::Tree(r) => r,
            NodeOrTree::Node(n) => n,
        }
    }
}

impl<N> NodeOrTree<Option<N>, N> {
    /// The node held, or what the tree holds.
    pub fn flatten_optional(self) -> (r: Option<N>)
        ensures
            match self {
                NodeOrTree::Tree(t) => r == t,
                NodeOrTree::Node(n) => r == Some(n),
            },
    {
        match self {
            NodeOrTree::Tree(r) => r,
            NodeOrTree::Node(n) => Some(n),
        }
    }
}

} // verus!
