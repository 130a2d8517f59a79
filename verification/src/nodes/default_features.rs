//! Making nodes, and reading and setting their fields.

use vstd::prelude::*;
use crate::index::Index;
use crate::node_type::NodeType;
use crate::nodes::Node;
use crate::value::Value;

verus! {

impl<K: Index, V: Value> Node<K, V> {
    /// An empty internal node of a tree of the given degree: clean, not the
    /// root, at offset zero.
    pub fn new(degree: usize) -> (node: Self)
        ensures
            node.node_type == NodeType::Internal,
            !node.is_root,
            !node.is_dirty,
            node.degree == degree,
            node.parent_offset == 0,
            node.offset == 0,
            node.keys@.len() == 0,
            node.values@.len() == 0,
            node.children@.len() == 0,
    {
        Self::make_internal(degree)
    }

    /// An empty internal node, with room for `degree - 1` keys and `degree`
    /// children.
    pub fn make_internal(degree: usize) -> (node: Self)
        ensures
            node.node_type == NodeType::Internal,
            !node.is_root,
            !node.is_dirty,
            node.degree == degree,
            node.parent_offset == 0,
            node.offset == 0,
            node.keys@.len() == 0,
            node.values@.len() == 0,
            node.children@.len() == 0,
    {
        let slots = if degree > 0 { degree - 1 } else { 0 };
        Node {
            node_type: NodeType::Internal,
            is_root: false,
            is_dirty: false,
            degree,
            parent_offset: 0,
            offset: 0,
            keys: Vec::with_capacity(slots),
            values: Vec::new(),
            children: Vec::with_capacity(degree),
        }
    }

    /// An empty leaf linked to the leaf at `next_offset`, with room for
    /// `degree - 1` keys and values.
    pub fn make_leaf(degree: usize, next_offset: Option<u64>) -> (node: Self)
        ensures
            node.node_type == NodeType::Leaf(next_offset),
            !node.is_root,
            !node.is_dirty,
            node.degree == degree,
            node.parent_offset == 0,
            node.offset == 0,
            node.keys@.len() == 0,
            node.values@.len() == 0,
            node.children@.len() == 0,
    {
        let slots = if degree > 0 { degree - 1 } else { 0 };
        Node {
            node_type: NodeType::Leaf(next_offset),
            is_root: false,
            is_dirty: false,
            degree,
            parent_offset: 0,
            offset: 0,
            keys: Vec::with_capacity(slots),
            values: Vec::with_capacity(slots),
            children: Vec::new(),
        }
    }

    /// Makes the node a leaf linked to the leaf at `next_offset`.
    pub fn set_leaf(&mut self, next_offset: Option<u64>)
        ensures
            *final(self) == (Node { node_type: NodeType::Leaf(next_offset), ..*old(self) }),
    {
        self.node_type = NodeType::Leaf(next_offset);
    }

    /// Makes the node an internal node.
    pub fn set_internal(&mut self)
        ensures
            *final(self) == (Node { node_type: NodeType::Internal, ..*old(self) }),
    {
        self.node_type = NodeType::Internal;
    }

    /// Marks the node as the root.
    pub fn set_root(&mut self)
        ensures
            *final(self) == (Node { is_root: true, ..*old(self) }),
    {
        self.is_root = true;
    }

    /// Records where the node's parent is.
    pub fn set_parent_offset(&mut self, offset: u64)
        ensures
            *final(self) == (Node { parent_offset: offset, ..*old(self) }),
    {
        self.parent_offset = offset;
    }

    /// Records where the node itself is.
    pub fn set_offset(&mut self, offset: u64)
        ensures
            *final(self) == (Node { offset, ..*old(self) }),
    {
        self.offset = offset;
    }

    /// Marks the page on file as stale.
    pub fn set_dirty(&mut self)
        ensures
            *final(self) == (Node { is_dirty: true, ..*old(self) }),
    {
        self.is_dirty = true;
    }

    /// Marks the page on file as up to date.
    pub fn set_clean(&mut self)
        ensures
            *final(self) == (Node { is_dirty: false, ..*old(self) }),
    {
        self.is_dirty = false;
    }

    /// Whether the node is the root.
    pub fn is_root(&self) -> (r: bool)
        ensures
            r == self.is_root,
    {
        self.is_root
    }

    /// Whether the page on file is stale.
    pub fn is_dirty(&self) -> (r: bool)
        ensures
            r == self.is_dirty,
    {
        self.is_dirty
    }

    /// Whether the node is a leaf.
    pub fn is_leaf(&self) -> (r: bool)
        ensures
            r == self@.is_leaf(),
    {
        self.node_type.is_leaf()
    }

    /// Whether the node holds more keys than a page has room for, so that it
    /// has to be split before it is written.
    pub fn is_overflow(&self) -> (r: bool)
        ensures
            r == (self.keys@.len() >= self.degree),
    {
        self.keys.len() >= self.degree
    }

    /// Whether every key slot is in use: the next key makes the node overflow.
    pub fn is_full(&self) -> (r: bool)
        ensures
            r == (self.keys@.len() + 1 == self.degree),
    {
        self.degree > 0 && self.keys.len() == self.degree - 1
    }

    /// How many children a node of this tree may have.
    pub fn get_degree(&self) -> (r: usize)
        ensures
            r == self.degree,
    {
        self.degree
    }

    /// Where the node's parent is.
    pub fn get_parent_offset(&self) -> (r: u64)
        ensures
            r == self.parent_offset,
    {
        self.parent_offset
    }

    /// Where the node itself is.
    pub fn get_offset(&self) -> (r: u64)
        ensures
            r == self.offset,
    {
        self.offset
    }

    /// How many keys are in use.
    pub fn get_used_count(&self) -> (r: usize)
        ensures
            r == self.keys@.len(),
    {
        self.keys.len()
    }

    /// The kind of the node.
    pub fn get_node_type(&self) -> (r: NodeType)
        ensures
            r == self.node_type,
    {
        self.node_type
    }

    /// The keys, in ascending order.
    pub fn get_keys(&self) -> (r: &Vec<K>)
        ensures
            *r == self.keys,
    {
        &self.keys
    }

    /// The values of a leaf, each at the index of its key.
    pub fn get_values(&self) -> (r: &Vec<V>)
        ensures
            *r == self.values,
    {
        &self.values
    }

    /// The offsets of an internal node's children, in key order.
    pub fn get_children(&self) -> (r: &Vec<u64>)
        ensures
            *r == self.children,
    {
        &self.children
    }
}

} // verus!
