//! The kind of a node and its sixteen-byte block.

use vstd::prelude::*;
use crate::bytes_ext::{
    append_bytes, be64, from_be64, lemma_be64_round_trip, u64_from_be_bytes, u64_to_be_bytes,
};
use crate::error::Error;

verus! {

/// The kind of a node. A leaf carries the offset of the next leaf in key
/// order, or none if it is the last.
#[derive(Debug, Clone, Copy, PartialEq, Eq, Structural)]
pub enum NodeType {
    Internal,
    Leaf(Option<u64>),
}

/// The tag that stands for an internal node.
pub const TAG_INTERNAL: u64 = 1;

/// The tag that stands for a leaf.
pub const TAG_LEAF: u64 = 2;

/// The width of the node-type block.
pub const NODE_TYPE_SIZE: usize = 16;

impl NodeType {
    /// The tag of the kind.
    pub open spec fn tag(self) -> u64 {
        match self {
            NodeType::Internal => TAG_INTERNAL,
            NodeType::Leaf(_) => TAG_LEAF,
        }
    }

    /// The number in the block's second word: the next leaf's offset, or zero
    /// where there is none.
    pub open spec fn link(self) -> u64 {
        match self {
            NodeType::Leaf(Some(next)) => next,
            _ => 0,
        }
    }

    /// The kind as it comes back from its bytes: a leaf linked to offset zero,
    /// where no leaf can be, is a leaf with no successor.
    pub open spec fn normal(self) -> NodeType {
        match self {
            NodeType::Leaf(Some(next)) if next == 0 => NodeType::Leaf(None),
            _ => self,
        }
    }

    /// The block: the tag, then the link, each as eight big-endian bytes.
    pub open spec fn encoding(self) -> Seq<u8> {
        be64(self.tag()) + be64(self.link())
    }

    /// The kind that a block stands for. Only the tags of the two kinds are
    /// known, and the block has sixteen bytes.
    pub open spec fn decoding(bytes: Seq<u8>) -> Option<NodeType> {
        if bytes.len() != NODE_TYPE_SIZE {
            None
        } else {
            let tag = from_be64(bytes.subrange(0, 8));
            let link = from_be64(bytes.subrange(8, 16));
            if tag == TAG_INTERNAL {
                Some(NodeType::Internal)
            } else if tag == TAG_LEAF {
                Some(NodeType::Leaf(if link == 0 { None } else { Some(link) }))
            } else {
                None
            }
        }
    }

    /// A block decodes to the kind it was made from, in its normal form, and
    /// the normal form has the same block.
    pub proof fn lemma_round_trip(self)
        ensures
            self.encoding().len() == NODE_TYPE_SIZE,
            NodeType::decoding(self.encoding()) == Some(self.normal()),
            self.normal().encoding() == self.encoding(),
    {
        lemma_be64_round_trip(self.tag());
        lemma_be64_round_trip(self.link());
        assert(self.encoding().subrange(0, 8) =~= be64(self.tag()));
        assert(self.encoding().subrange(8, 16) =~= be64(self.link()));
    }

    /// The width of the block.
    pub fn get_byte_size() -> (n: usize)
        ensures
            n == NODE_TYPE_SIZE,
    {
        NODE_TYPE_SIZE
    }

    /// Whether the kind is a leaf.
    pub fn is_leaf(&self) -> (r: bool)
        ensures
            r == (*self is Leaf),
    {
        match self {
            NodeType::Leaf(_) => true,
            NodeType::Internal => false,
        }
    }

    /// Encodes the kind.
    pub fn to_bytes(&self) -> (bytes: Vec<u8>)
        ensures
            bytes@ == self.encoding(),
    {
        let (tag, link): (u64, u64) = match self {
            NodeType::Internal => (TAG_INTERNAL, 0),
            NodeType::Leaf(None) => (TAG_LEAF, 0),
            NodeType::Leaf(Some(next)) => (TAG_LEAF, *next),
        };
        let mut bytes = u64_to_be_bytes(tag);
        let second = u64_to_be_bytes(link);
        append_bytes(&mut bytes, &second);
        bytes
    }

    /// Decodes a kind.
    pub fn new_from_bytes(bytes: Vec<u8>) -> (r: Result<NodeType, Error>)
        ensures
            match NodeType::decoding(bytes@) {
                Some(t) => r == Ok::<NodeType, Error>(t),
                None => r == Err::<NodeType, Error>(Error::Encoding),
            },
    {
        if bytes.len() != NODE_TYPE_SIZE {
            return Err(Error::Encoding);
        }
        let tag = u64_from_be_bytes(&bytes, 0);
        let link = u64_from_be_bytes(&bytes, 8);
        if tag == TAG_INTERNAL {
            Ok(NodeType::Internal)
        } else if tag == TAG_LEAF {
            Ok(NodeType::Leaf(if link == 0 { None } else { Some(link) }))
        } else {
            Err(Error::Encoding)
        }
    }

    /// Replaces the kind by the one that `bytes` stands for; where it stands
    /// for none the kind stays and the error says so.
    pub fn from_bytes(&mut self, bytes: Vec<u8>) -> (r: Result<(), Error>)
        ensures
            match NodeType::decoding(bytes@) {
                Some(t) => r is Ok && *final(self) == t,
                None => r == Err::<(), Error>(Error::Encoding) && *final(self) == *old(self),
            },
    {
        match NodeType::new_from_bytes(bytes) {
            Ok(t) => {
                *self = t;
                Ok(())
            },
            Err(e) => Err(e),
        }
    }
}

} // verus!
