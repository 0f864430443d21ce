//! A binary tree whose root element can be read, replaced and mapped.

use vstd::prelude::*;

verus! {

/// A tree node: an element and two subtrees.
pub struct Node<T: Clone> {
    elem: T,
    left: Box<Tree<T>>,
    right: Box<Tree<T>>,
}

impl<T: Clone> Node<T> {
    /// The element held by the node.
    pub closed spec fn elem(&self) -> T {
        self.elem
    }

    /// The left subtree.
    pub closed spec fn left(&self) -> Tree<T> {
        *self.left
    }

    /// The right subtree.
    pub closed spec fn right(&self) -> Tree<T> {
        *self.right
    }

    /// The node holds `elem` and has no children.
    pub open spec fn is_leaf_of(&self, elem: T) -> bool {
        &&& self.elem() == elem
        &&& self.left() == Tree::<T>::Nil
        &&& self.right() == Tree::<T>::Nil
    }

    /// The node is `other` with its element replaced by `elem`.
    pub open spec fn is_update_of(&self, other: Node<T>, elem: T) -> bool {
        &&& self.elem() == elem
        &&& self.left() == other.left()
        &&& self.right() == other.right()
    }

    /// Makes a node that holds `elem` and has no children.
    pub fn new(elem: T) -> (n: Node<T>)
        ensures
            n.is_leaf_of(elem),
    {
        Node { elem: elem, left: Box::new(Tree::Nil), right: Box::new(Tree::Nil) }
    }
}

/// A binary tree: empty, or a root node.
pub enum Tree<T: Clone> {
    Nil,
    Node(Node<T>),
}

impl<T: Clone> Tree<T> {
    /// The element at the root, if the tree has a root.
    pub open spec fn root(&self) -> Option<T> {
        match self {
            Tree::Nil => None,
            Tree::Node(n) => Some(n.elem()),
        }
    }

    /// Creates an empty tree.
    pub fn new() -> (t: Tree<T>)
        ensures
            t == Tree::<T>::Nil,
    {
        Tree::Nil
    }

    /// Whether the tree is empty.
    pub fn is_nil(&self) -> (r: bool)
        ensures
            r == (*self == Tree::<T>::Nil),
            r == self.root().is_none(),
    {
        match *self {
            Tree::Nil => true,
            _ => false,
        }
    }

    /// Returns a clone of the element stored in the root node.
    pub fn peek(&self) -> (r: T)
        requires
            self.root().is_some(),
        ensures
            cloned(self.root().unwrap(), r),
    {
        match self {
            Tree::Nil => vstd::pervasive::unreached(),
            Tree::Node(n) => n.elem.clone(),
        }
    }

    /// Stores `elem` at the root. An empty tree gets a root node without
    /// children; a tree with a root keeps its subtrees.
    pub fn give(&mut self, elem: T)
        ensures
            final(self).root() == Some(elem),
            match (*old(self), *final(self)) {
                (Tree::Nil, Tree::Node(m)) => m.is_leaf_of(elem),
                (Tree::Node(n), Tree::Node(m)) => m.is_update_of(n, elem),
                _ => false,
            },
    {
        match self {
            Tree::Nil => {
                *self = Tree::Node(Node::new(elem));
            },
            Tree::Node(n) => {
                n.elem = elem;
            },
        }
    }

    /// Replaces the root element by what `f` makes of a clone of it. An empty
    /// tree stays empty.
    pub fn apply<F: Fn(T) -> T>(&mut self, f: F)
        requires
            forall|c: T|
                old(self).root().is_some() && cloned(old(self).root().unwrap(), c)
                    ==> #[trigger] f.requires((c,)),
        ensures
            match (*old(self), *final(self)) {
                (Tree::Nil, Tree::Nil) => true,
                (Tree::Node(n), Tree::Node(m)) => {
                    &&& m.is_update_of(n, m.elem())
                    &&& exists|c: T| cloned(n.elem(), c) && #[trigger] f.ensures((c,), m.elem())
                },
                _ => false,
            },
    {
        match self {
            Tree::Nil => (),
            Tree::Node(node) => {
                let c = node.elem.clone();
                node.elem = f(c);
            },
        }
    }
}

} // verus!
