//! Values: fixed-width data that can be copied.

use vstd::prelude::*;
use crate::bytes_ext::BytesExtension;

verus! {

/// A value: a fixed-width datum that can be copied.
pub trait Value: BytesExtension + Copy {
}

impl Value for u64 {
}

impl Value for i64 {
}

} // verus!
