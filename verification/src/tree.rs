//! A plain owned binary tree: the parent-owns-children shape on which the
//! contraction trees rest.

use vstd::prelude::*;

verus! {

/// A binary tree with owned children.
pub struct BTree<T> {
    pub root: Option<Node<T>>,
}

/// A node of a binary tree.
pub struct Node<T> {
    pub value: T,
    pub left: Option<Box<Node<T>>>,
    pub right: Option<Box<Node<T>>>,
}

impl<T> BTree<T> {
    /// Creates an empty tree.
    pub fn new() -> (r: Self)
        ensures
            r.root is None,
    {
        Self { root: None }
    }

    /// Creates a new tree with this tree as the left child of a new root
    /// and the other tree as the right child.
    pub fn implant_sx(self, new_root: T, other: BTree<T>) -> (r: Self)
        ensures
            r.root matches Some(n) && n.value == new_root && (match n.left {
                Some(b) => self.root matches Some(x) && *b == x,
                None => self.root is None,
            }) && (match n.right {
                Some(b) => other.root matches Some(x) && *b == x,
                None => other.root is None,
            }),
    {
        let mut root = Node::new(new_root);
        root.left = match self.root {
            Some(n) => Some(Box::new(n)),
            None => None,
        };
        root.right = match other.root {
            Some(n) => Some(Box::new(n)),
            None => None,
        };
        Self { root: Some(root) }
    }

    /// Creates a new tree with the other tree as the left child of a new
    /// root and this tree as the right child.
    pub fn implant_dx(self, new_root: T, other: BTree<T>) -> (r: Self)
        ensures
            r.root matches Some(n) && n.value == new_root && (match n.left {
                Some(b) => other.root matches Some(x) && *b == x,
                None => other.root is None,
            }) && (match n.right {
                Some(b) => self.root matches Some(x) && *b == x,
                None => self.root is None,
            }),
    {
        let mut root = Node::new(new_root);
        root.left = match other.root {
            Some(n) => Some(Box::new(n)),
            None => None,
        };
        root.right = match self.root {
            Some(n) => Some(Box::new(n)),
            None => None,
        };
        Self { root: Some(root) }
    }

    /// Returns the root node for mutation, if the tree has one.
    pub fn mut_root(&mut self) -> (r: Option<&mut Node<T>>)
        ensures
            old(self).root is None <==> r is None,
    {
        self.root.as_mut()
    }
}

impl<T> Node<T> {
    /// Creates a leaf node.
    pub fn new(value: T) -> (r: Self)
        ensures
            r.value == value,
            r.left is None,
            r.right is None,
    {
        Self { value, left: None, right: None }
    }

    /// Creates a boxed leaf node.
    pub fn boxed(value: T) -> (r: Box<Self>)
        ensures
            r.value == value,
            r.left is None,
            r.right is None,
    {
        Box::new(Self::new(value))
    }

    /// Returns the left child, if any.
    pub fn left(&self) -> (r: Option<&Node<T>>)
        ensures
            self.left is None <==> r is None,
            r matches Some(n) ==> self.left matches Some(b) && *n == *b,
    {
        match &self.left {
            Some(b) => Some(&**b),
            None => None,
        }
    }

    /// Returns the right child, if any.
    pub fn right(&self) -> (r: Option<&Node<T>>)
        ensures
            self.right is None <==> r is None,
            r matches Some(n) ==> self.right matches Some(b) && *n == *b,
    {
        match &self.right {
            Some(b) => Some(&**b),
            None => None,
        }
    }

    /// Replaces the left child with a new leaf-rooted subtree.
    pub fn set_left(&mut self, node: Node<T>)
        ensures
            final(self).left matches Some(b) && *b == node,
            final(self).right == old(self).right,
            final(self).value == old(self).value,
    {
        self.left = Some(Box::new(node));
    }

    /// Replaces the right child with a new leaf-rooted subtree.
    pub fn set_right(&mut self, node: Node<T>)
        ensures
            final(self).right matches Some(b) && *b == node,
            final(self).left == old(self).left,
            final(self).value == old(self).value,
    {
        self.right = Some(Box::new(node));
    }
}

} // verus!
