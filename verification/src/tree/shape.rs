//! What makes the nodes of a file a B+Tree, and what the tree holds.

use vstd::prelude::*;
use crate::index::Index;
use crate::node_type::NodeType;
use crate::nodes::crud::{leaf_map, route, sorted};
use crate::nodes::io::Heap;
use crate::nodes::NodeView;
use crate::value::Value;

verus! {

/// Where a subtree hangs and what it may hold: the offset of its top node,
/// its height (zero for a leaf), the bounds on its keys (`low` included,
/// `high` not; none where the side is open), the offset of the node above it,
/// and the leaf that follows its last leaf in key order.
pub struct Slot<K> {
    pub offset: u64,
    pub height: nat,
    pub low: Option<K>,
    pub high: Option<K>,
    pub parent: u64,
    pub next: Option<u64>,
}

/// Whether `key` lies within the bounds.
pub open spec fn in_range<K: Index>(key: K, low: Option<K>, high: Option<K>) -> bool {
    &&& low matches Some(l) ==> l.rank() <= key.rank()
    &&& high matches Some(h) ==> key.rank() < h.rank()
}

/// The least number of keys that a leaf other than the root holds: half the
/// key capacity, rounded up. For the odd degrees of this tree that is half
/// the degree, rounded down.
pub open spec fn min_keys(degree: nat) -> nat {
    degree / 2
}

/// The first leaf of the subtree of the given height at `offset`.
pub open spec fn leftmost<K, V>(m: Heap<K, V>, offset: u64, height: nat) -> u64
    decreases height,
{
    if height == 0 || !m.dom().contains(offset) || m[offset].children.len() == 0 {
        offset
    } else {
        leftmost(m, m[offset].children[0], (height - 1) as nat)
    }
}

/// The leaf of the subtree of the given height at `offset` that `key` belongs
/// to: at each internal node the way leads to the child before the first key
/// that exceeds `key`, or to the last child where none does.
pub open spec fn leaf_of<K: Index, V>(m: Heap<K, V>, offset: u64, height: nat, key: K) -> u64
    decreases height,
{
    if height == 0 || !m.dom().contains(offset) {
        offset
    } else {
        leaf_of(m, m[offset].children[route(m[offset].keys, key)], (height - 1) as nat, key)
    }
}

/// The offsets of the nodes of the subtree of the given height at `offset`.
pub open spec fn reach<K, V>(m: Heap<K, V>, offset: u64, height: nat) -> Set<u64>
    decreases height,
{
    if height == 0 || !m.dom().contains(offset) {
        set![offset]
    } else {
        Set::new(
            |o: u64|
                o == offset || exists|i: int|
                    0 <= i < m[offset].children.len() && reach(
                        m,
                        #[trigger] m[offset].children[i],
                        (height - 1) as nat,
                    ).contains(o),
        )
    }
}

/// Where child `i` of the node `n` in slot `s` hangs: one level down, between
/// the separators on its two sides, followed by the first leaf of the next
/// child.
pub open spec fn child_slot<K, V>(m: Heap<K, V>, n: NodeView<K, V>, s: Slot<K>, i: int) -> Slot<
    K,
> {
    Slot {
        offset: n.children[i],
        height: (s.height - 1) as nat,
        low: if i == 0 {
            s.low
        } else {
            Some(n.keys[i - 1])
        },
        high: if i == n.keys.len() {
            s.high
        } else {
            Some(n.keys[i])
        },
        parent: s.offset,
        next: if i == n.keys.len() {
            s.next
        } else {
            Some(leftmost(m, n.children[i + 1], (s.height - 1) as nat))
        },
    }
}

/// Whether the nodes under `s` form a B+Tree of the slot's height whose top
/// node holds at most `room` keys.
///
/// Every node records its parent and whether it is the root (the node at
/// offset zero), and holds ascending keys within the slot's bounds; below the
/// top no more than `degree - 1` of them. A leaf is linked to the leaf that
/// follows it and, unless it is the root, holds at least the least number of
/// keys. An internal node has at least one key and one child more than keys;
/// each child is a tree one level lower between the separators on its two
/// sides; no node is reached twice.
pub open spec fn shape_with<K: Index, V: Value>(
    m: Heap<K, V>,
    degree: nat,
    s: Slot<K>,
    room: nat,
) -> bool
    decreases s.height,
{
    &&& m.dom().contains(s.offset)
    &&& {
        let n = m[s.offset];
        &&& n.parent_offset == s.parent
        &&& n.is_root == (s.offset == 0)
        &&& n.keys.len() <= room
        &&& sorted(n.keys)
        &&& forall|i: int| 0 <= i < n.keys.len() ==> in_range(#[trigger] n.keys[i], s.low, s.high)
        &&& if s.height == 0 {
            &&& n.node_type == NodeType::Leaf(s.next)
            &&& n.values.len() == n.keys.len()
            &&& n.children.len() == 0
            &&& s.offset != 0 ==> n.keys.len() >= min_keys(degree)
        } else {
            &&& n.node_type == NodeType::Internal
            &&& n.values.len() == 0
            &&& n.children.len() == n.keys.len() + 1
            &&& n.keys.len() >= 1
            &&& forall|i: int| 0 <= i < n.children.len() ==> (#[trigger] n.children[i]) != 0
            &&& forall|i: int|
                0 <= i < n.children.len() ==> shape_with(
                    m,
                    degree,
                    #[trigger] child_slot(m, n, s, i),
                    (degree - 1) as nat,
                )
            &&& forall|i: int|
                0 <= i < n.children.len() ==> !(#[trigger] reach(
                    m,
                    n.children[i],
                    (s.height - 1) as nat,
                )).contains(s.offset)
            &&& forall|i: int, j: int|
                0 <= i < j < n.children.len() ==> (#[trigger] reach(
                    m,
                    n.children[i],
                    (s.height - 1) as nat,
                )).disjoint(#[trigger] reach(m, n.children[j], (s.height - 1) as nat))
        }
    }
}

/// Whether the nodes under `s` form a B+Tree of the slot's height: as
/// [`shape_with`], with room in the top node for `degree - 1` keys, as in
/// every other.
pub open spec fn shape<K: Index, V: Value>(m: Heap<K, V>, degree: nat, s: Slot<K>) -> bool {
    shape_with(m, degree, s, (degree - 1) as nat)
}

/// What the subtree of the given height at `offset` holds: for each key, what
/// the leaf holds that the key is routed to.
pub open spec fn contents<K: Index, V: Value>(m: Heap<K, V>, offset: u64, height: nat) -> Map<
    K,
    V,
>
    decreases height,
{
    if !m.dom().contains(offset) {
        Map::empty()
    } else if height == 0 {
        leaf_map(m[offset].keys, m[offset].values)
    } else {
        let n = m[offset];
        Map::new(
            |k: K| contents(m, n.children[route(n.keys, k)], (height - 1) as nat).contains_key(k),
            |k: K| contents(m, n.children[route(n.keys, k)], (height - 1) as nat)[k],
        )
    }
}

/// The slot of a whole tree of the given height: at offset zero, open on both
/// sides, its own parent, with no leaf behind it.
pub open spec fn root_slot<K>(height: nat) -> Slot<K> {
    Slot { offset: 0, height, low: None, high: None, parent: 0, next: None }
}

} // verus!
