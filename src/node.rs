//! Nodes of the trie's arena: leaves and internal prefix nodes.
use vstd::prelude::*;

verus! {

/// One node of the trie.
///
/// A leaf holds a key and its value; its `left` and `right` links are the
/// indices of its neighbours in ascending key order. An internal node holds
/// neither key nor value; each of its two slots is either the index of its
/// child on that side, or, where no child exists, the index of the leaf
/// holding the nearest key of its own subtree on that side.
pub struct XFastNode<V> {
    pub key: Option<u32>,
    pub value: Option<V>,
    pub left: Option<usize>,
    pub right: Option<usize>,
}

impl<V> XFastNode<V> {
    /// An internal node with both slots empty.
    pub fn new() -> (r: Self)
        ensures
            r.key is None,
            r.value is None,
            r.left is None,
            r.right is None,
    {
        XFastNode { key: None, value: None, left: None, right: None }
    }

    /// A leaf for `key` and `value`, not yet linked to any neighbour.
    pub fn new_leaf(key: u32, value: V) -> (r: Self)
        ensures
            r.key == Some(key),
            r.value == Some(value),
            r.left is None,
            r.right is None,
    {
        XFastNode { key: Some(key), value: Some(value), left: None, right: None }
    }

    /// Points the left link or slot at node `node`.
    pub fn set_left(&mut self, node: usize)
        ensures
            final(self).left == Some(node),
            final(self).right == old(self).right,
            final(self).key == old(self).key,
            final(self).value == old(self).value,
    {
        self.left = Some(node);
    }

    /// Points the right link or slot at node `node`.
    pub fn set_right(&mut self, node: usize)
        ensures
            final(self).right == Some(node),
            final(self).left == old(self).left,
            final(self).key == old(self).key,
            final(self).value == old(self).value,
    {
        self.right = Some(node);
    }

    /// The left link or slot.
    pub fn get_left(&self) -> (r: Option<usize>)
        ensures
            r == self.left,
    {
        self.left
    }

    /// The right link or slot.
    pub fn get_right(&self) -> (r: Option<usize>)
        ensures
            r == self.right,
    {
        self.right
    }

    /// Whether this node is a leaf, holding a key and a value.
    pub fn is_leaf(&self) -> (r: bool)
        ensures
            r == (self.key is Some && self.value is Some),
    {
        self.key.is_some() && self.value.is_some()
    }
}

} // verus!
