//! The errors of the index.

use vstd::prelude::*;

verus! {

/// What can go wrong in the index.
#[derive(Clone, Copy, Debug, PartialEq, Eq, Structural)]
pub enum Error {
    /// The degree is even or below three, or the page layout does not fit the machine.
    Configuration,
    /// A byte string has the wrong length or an unknown tag: the data is damaged
    /// or was written with other key and value types.
    Encoding,
    /// The node file cannot be written: it cannot grow any further.
    Io,
    /// The key is not in the tree.
    NotFound,
    /// The tree is not open.
    NotInitialized,
    /// The key is already in the tree.
    DuplicateKey,
}

} // verus!
