//! Keys: fixed-width values with a total order.

use vstd::prelude::*;
use crate::bytes_ext::BytesExtension;

verus! {

/// A key: a fixed-width value with a total order.
///
/// The order is given by `rank`, a one-to-one map into the integers, so that
/// two keys compare as their ranks do.
pub trait Index: BytesExtension + Copy {
    /// The place of the key in the order.
    spec fn rank(&self) -> int;

    /// Keys of the same rank are the same key.
    proof fn lemma_rank_one_to_one(a: Self, b: Self)
        requires
            a.rank() == b.rank(),
        ensures
            a == b,
    ;

    /// Whether this key comes before `other`.
    fn comes_before(&self, other: &Self) -> (r: bool)
        ensures
            r == (self.rank() < other.rank()),
    ;
}

impl Index for u64 {
    open spec fn rank(&self) -> int {
        *self as int
    }

    proof fn lemma_rank_one_to_one(a: Self, b: Self) {
    }

    fn comes_before(&self, other: &Self) -> (r: bool) {
        *self < *other
    }
}

impl Index for i64 {
    open spec fn rank(&self) -> int {
        *self as int
    }

    proof fn lemma_rank_one_to_one(a: Self, b: Self) {
    }

    fn comes_before(&self, other: &Self) -> (r: bool) {
        *self < *other
    }
}

/// Whether two keys are the same, found by comparing them both ways.
pub fn same_key<K: Index>(a: &K, b: &K) -> (r: bool)
    ensures
        r == (*a == *b),
{
    let r = !a.comes_before(b) && !b.comes_before(a);
    proof {
        if r {
            K::lemma_rank_one_to_one(*a, *b);
        }
    }
    r
}

} // verus!
