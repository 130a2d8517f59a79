//! Where the parts of a node stand on its page, and how many bytes it takes.

use vstd::prelude::*;
use crate::bytes_ext::BytesExtension;

verus! {

/// The size of a page of the node file: every node takes a whole number of
/// pages.
pub const PAGE_SIZE: usize = 4096;

/// The width of what stands before the keys: the kind (16 bytes), the root
/// flag and three bytes of padding, the parent's offset, the node's own
/// offset and the number of keys in use (8 bytes each).
pub const HEADER_SIZE: usize = 44;

/// Where the root flag stands.
pub const ROOT_FLAG_AT: usize = 16;

/// Where the parent's offset stands.
pub const PARENT_AT: usize = 20;

/// Where the node's own offset stands.
pub const OFFSET_AT: usize = 28;

/// Where the number of keys in use stands.
pub const USED_AT: usize = 36;

/// Where the values start: behind the `degree - 1` key slots.
pub open spec fn values_start<K: BytesExtension>(degree: nat) -> int {
    HEADER_SIZE + (degree - 1) * K::byte_size()
}

/// Where the child offsets start: behind the `degree - 1` value slots.
pub open spec fn children_start<K: BytesExtension, V: BytesExtension>(degree: nat) -> int {
    values_start::<K>(degree) + (degree - 1) * V::byte_size()
}

/// The bytes that a node fills: up to the end of its `degree` child slots.
pub open spec fn raw_size<K: BytesExtension, V: BytesExtension>(degree: nat) -> int {
    children_start::<K, V>(degree) + degree * 8
}

/// The bytes that a node takes on file: what it fills, rounded up to whole
/// pages.
pub open spec fn node_size<K: BytesExtension, V: BytesExtension>(degree: nat) -> int {
    ((raw_size::<K, V>(degree) + PAGE_SIZE - 1) / (PAGE_SIZE as int)) * PAGE_SIZE
}

/// Whether nodes of this degree can be laid out on this machine: a node has
/// at least one child slot and its size is a `usize`.
pub open spec fn layout_fits<K: BytesExtension, V: BytesExtension>(degree: nat) -> bool {
    degree >= 1 && node_size::<K, V>(degree) <= usize::MAX
}

/// Where the parts of a node stand and how much it takes.
pub struct Layout {
    pub values_start: usize,
    pub children_start: usize,
    pub raw_size: usize,
    pub node_size: usize,
}

/// The parts stand in order and the node takes at least what it fills.
pub proof fn lemma_layout_order<K: BytesExtension, V: BytesExtension>(degree: nat)
    requires
        degree >= 1,
    ensures
        HEADER_SIZE <= values_start::<K>(degree) <= children_start::<K, V>(degree) <= raw_size::<
            K,
            V,
        >(degree) <= node_size::<K, V>(degree),
        node_size::<K, V>(degree) < raw_size::<K, V>(degree) + PAGE_SIZE,
        node_size::<K, V>(degree) % (PAGE_SIZE as int) == 0,
        node_size::<K, V>(degree) >= PAGE_SIZE,
{
    assert((degree - 1) * K::byte_size() >= 0) by (nonlinear_arith)
        requires
            degree >= 1,
    ;
    assert((degree - 1) * V::byte_size() >= 0) by (nonlinear_arith)
        requires
            degree >= 1,
    ;
    let raw = raw_size::<K, V>(degree);
    let pages = (raw + PAGE_SIZE - 1) / (PAGE_SIZE as int);
    assert(raw >= 0);
    assert(pages * 4096 >= raw && pages * 4096 < raw + 4096 && (pages * 4096) % 4096 == 0
        && pages * 4096 >= 4096) by {
        assert(raw + 4095 == 4096 * ((raw + 4095) / 4096) + (raw + 4095) % 4096);
    }
}

/// Lays out a node of the given degree, or finds that it cannot be done.
pub fn layout<K: BytesExtension, V: BytesExtension>(degree: usize) -> (r: Option<Layout>)
    ensures
        match r {
            Some(l) => {
                &&& layout_fits::<K, V>(degree as nat)
                &&& l.values_start == values_start::<K>(degree as nat)
                &&& l.children_start == children_start::<K, V>(degree as nat)
                &&& l.raw_size == raw_size::<K, V>(degree as nat)
                &&& l.node_size == node_size::<K, V>(degree as nat)
            },
            None => !layout_fits::<K, V>(degree as nat),
        },
{
    if degree < 1 {
        return None;
    }
    proof {
        lemma_layout_order::<K, V>(degree as nat);
    }
    let slots: usize = degree - 1;
    let keys_width = match slots.checked_mul(K::get_byte_size()) {
        Some(w) => w,
        None => { return None; },
    };
    let values_width = match slots.checked_mul(V::get_byte_size()) {
        Some(w) => w,
        None => {
            proof {
                assert((degree - 1) * K::byte_size() >= 0) by (nonlinear_arith)
                    requires
                        degree >= 1,
                ;
            }
            return None;
        },
    };
    let children_width = match degree.checked_mul(8) {
        Some(w) => w,
        None => { return None; },
    };
    let values_start = match HEADER_SIZE.checked_add(keys_width) {
        Some(w) => w,
        None => { return None; },
    };
    let children_start = match values_start.checked_add(values_width) {
        Some(w) => w,
        None => { return None; },
    };
    let raw_size = match children_start.checked_add(children_width) {
        Some(w) => w,
        None => { return None; },
    };
    let padded = match raw_size.checked_add(PAGE_SIZE - 1) {
        Some(w) => w,
        None => { return None; },
    };
    let node_size = (padded / PAGE_SIZE) * PAGE_SIZE;
    Some(Layout { values_start, children_start, raw_size, node_size })
}

} // verus!
