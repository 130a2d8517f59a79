//! An ordered key-value index kept as a B+Tree of fixed-size pages.
//!
//! The crate holds the page codec, the node model with its byte layout, the
//! insertion, split, removal and rebalancing rules, and the coordinator that
//! owns the root. Pages live in a [`NodeFile`], an image of the node file that
//! a caller loads from and stores to disk.

pub mod error;
pub mod bytes_ext;
pub mod array;
pub mod node_type;
pub mod nodes;
pub mod fm;
pub mod tree;
pub mod index;
pub mod value;

pub use error::Error;
pub use bytes_ext::BytesExtension;
pub use index::Index;
pub use value::Value;
pub use node_type::NodeType;
pub use nodes::{Node, NodeView};
pub use fm::nodes::NodeFile;
pub use tree::Tree;
pub use fm::roots::RootFile;
