//! The skeleton of a binary tree: its nodes live in an arena owned by the tree, and a
//! node refers to its parent by slot.

use vstd::prelude::*;

verus! {

/// A node of the tree: an element and the slot of its parent, if it has one.
pub struct Node<T> {
    pub data: T,
    pub parent: Option<usize>,
}

impl<T> Node<T> {
    /// A node holding `data` under `parent`; `None` for a root.
    pub fn new(data: T, parent: Option<usize>) -> (r: Node<T>)
        ensures
            r.data == data,
            r.parent == parent,
    {
        Node { data, parent }
    }
}

/// A binary tree, with the slot of its root if it is not empty.
pub struct BinaryTree<T> {
    root: Option<usize>,
    nodes: Vec<Node<T>>,
}

impl<T> View for BinaryTree<T> {
    type V = Seq<Node<T>>;

    /// The tree's nodes by slot.
    closed spec fn view(&self) -> Seq<Node<T>> {
        self.nodes@
    }
}

impl<T> BinaryTree<T> {
    /// The slot of the root, if the tree has one.
    pub closed spec fn root_slot(&self) -> Option<usize> {
        self.root
    }

    /// An empty tree.
    pub fn new() -> (r: BinaryTree<T>)
        ensures
            r.root_slot() is None,
            r@ == Seq::<Node<T>>::empty(),
    {
        BinaryTree { root: None, nodes: Vec::new() }
    }

    /// The slot of the root, if the tree has one.
    pub fn root(&self) -> (r: Option<usize>)
        ensures
            r == self.root_slot(),
    {
        self.root
    }
}

} // verus!
