//! The node: the unit of storage, and what it holds as mathematical values.

use vstd::prelude::*;
use crate::index::Index;
use crate::node_type::NodeType;
use crate::value::Value;

pub mod layout;
pub mod default_features;
pub mod io;
pub mod crud;

verus! {

/// What a node holds, as mathematical values: everything that is written to
/// its page.
pub struct NodeView<K, V> {
    pub node_type: NodeType,
    pub is_root: bool,
    pub parent_offset: u64,
    pub offset: u64,
    pub keys: Seq<K>,
    pub values: Seq<V>,
    pub children: Seq<u64>,
}

/// A node of the tree: the unit of storage.
///
/// `offset` is the node's place in the node file and also its identity.
/// `is_dirty` and `degree` live in memory only: the first says that the page
/// on file is stale, the second how many children a node may have.
#[derive(Clone, Debug)]
pub struct Node<K: Index, V: Value> {
    pub node_type: NodeType,
    pub is_root: bool,
    pub is_dirty: bool,
    pub degree: usize,
    pub parent_offset: u64,
    pub offset: u64,
    pub keys: Vec<K>,
    pub values: Vec<V>,
    pub children: Vec<u64>,
}

impl<K: Index, V: Value> View for Node<K, V> {
    type V = NodeView<K, V>;

    open spec fn view(&self) -> NodeView<K, V> {
        NodeView {
            node_type: self.node_type,
            is_root: self.is_root,
            parent_offset: self.parent_offset,
            offset: self.offset,
            keys: self.keys@,
            values: self.values@,
            children: self.children@,
        }
    }
}

impl<K, V> NodeView<K, V> {
    /// Whether the node is a leaf.
    pub open spec fn is_leaf(self) -> bool {
        self.node_type is Leaf
    }

    /// Whether the node can be written to a page of a tree of this degree: the
    /// keys are within capacity, a leaf has a value for each key and no
    /// children, an internal node has no values and at most one child more
    /// than it has keys.
    pub open spec fn fits(self, degree: nat) -> bool {
        &&& self.keys.len() + 1 <= degree
        &&& self.is_leaf() ==> self.values.len() == self.keys.len() && self.children.len() == 0
        &&& !self.is_leaf() ==> self.values.len() == 0 && self.children.len() <= self.keys.len()
            + 1
    }

    /// Whether the node is exactly what its page gives back: it fits, its kind
    /// is in normal form, and an internal node has one child more than keys.
    pub open spec fn canonical(self, degree: nat) -> bool {
        &&& self.fits(degree)
        &&& self.node_type.normal() == self.node_type
        &&& !self.is_leaf() ==> self.children.len() == self.keys.len() + 1
    }
}

} // verus!
