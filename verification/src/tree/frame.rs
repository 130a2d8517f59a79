//! A subtree depends only on the nodes that it reaches.

use vstd::prelude::*;
use crate::index::Index;
use crate::nodes::crud::{has_key, lemma_route, position, route};
use crate::nodes::io::Heap;
use crate::tree::shape::{child_slot, contents, in_range, leftmost, reach, shape_with, Slot};
use crate::value::Value;

verus! {

/// Whether `m2` holds every node of `m` that lies outside `region`, unchanged.
pub open spec fn same_outside<K, V>(m: Heap<K, V>, m2: Heap<K, V>, region: Set<u64>) -> bool {
    forall|o: u64|
        #![trigger m2[o]]
        #![trigger m2.dom().contains(o)]
        m.dom().contains(o) && !region.contains(o) ==> m2.dom().contains(o) && m2[o] == m[o]
}

/// Whether every offset of `after` is one of `before` or new to `m`.
pub open spec fn confined<K, V>(m: Heap<K, V>, after: Set<u64>, before: Set<u64>) -> bool {
    forall|o: u64| #[trigger] after.contains(o) ==> before.contains(o) || !m.dom().contains(o)
}

/// A subtree reaches its own top node.
pub proof fn lemma_reach_top<K, V>(m: Heap<K, V>, offset: u64, height: nat)
    ensures
        reach(m, offset, height).contains(offset),
{
}

/// A subtree reaches what its children reach.
pub proof fn lemma_reach_child<K, V>(m: Heap<K, V>, offset: u64, height: nat, i: int)
    requires
        height > 0,
        m.dom().contains(offset),
        0 <= i < m[offset].children.len(),
    ensures
        reach(m, m[offset].children[i], (height - 1) as nat).subset_of(reach(m, offset, height)),
{
}

/// Every node that a well-formed subtree reaches is in the file.
pub proof fn lemma_reach_dom<K: Index, V: Value>(
    m: Heap<K, V>,
    degree: nat,
    s: Slot<K>,
    room: nat,
)
    requires
        shape_with(m, degree, s, room),
    ensures
        reach(m, s.offset, s.height).subset_of(m.dom()),
    decreases s.height,
{
    if s.height > 0 {
        let n = m[s.offset];
        assert forall|o: u64| reach(m, s.offset, s.height).contains(o) implies m.dom().contains(
            o,
        ) by {
            if o != s.offset {
                let i = choose|i: int|
                    0 <= i < n.children.len() && reach(
                        m,
                        #[trigger] n.children[i],
                        (s.height - 1) as nat,
                    ).contains(o);
                assert(shape_with(m, degree, child_slot(m, n, s, i), (degree - 1) as nat));
                lemma_reach_dom(m, degree, child_slot(m, n, s, i), (degree - 1) as nat);
            }
        }
    }
}

/// Whether `m2` holds every node of `region`, as `m` holds it.
pub open spec fn same_inside<K, V>(m: Heap<K, V>, m2: Heap<K, V>, region: Set<u64>) -> bool {
    forall|o: u64|
        #![trigger m2[o]]
        #![trigger m2.dom().contains(o)]
        region.contains(o) ==> m2.dom().contains(o) && m2[o] == m[o]
}

/// Two files that hold the same nodes where a well-formed subtree reaches
/// agree on what it reaches and on its first leaf.
pub proof fn lemma_frame_reach<K: Index, V: Value>(
    m: Heap<K, V>,
    m2: Heap<K, V>,
    degree: nat,
    s: Slot<K>,
    room: nat,
)
    requires
        shape_with(m, degree, s, room),
        same_inside(m, m2, reach(m, s.offset, s.height)),
    ensures
        reach(m2, s.offset, s.height) == reach(m, s.offset, s.height),
        leftmost(m2, s.offset, s.height) == leftmost(m, s.offset, s.height),
    decreases s.height,
{
    lemma_reach_top(m, s.offset, s.height);
    assert(m2[s.offset] == m[s.offset]);
    if s.height > 0 {
        let n = m[s.offset];
        let h = (s.height - 1) as nat;
        assert forall|i: int| 0 <= i < n.children.len() implies reach(
            m2,
            #[trigger] n.children[i],
            h,
        ) == reach(m, n.children[i], h) && leftmost(m2, n.children[i], h) == leftmost(
            m,
            n.children[i],
            h,
        ) by {
            let c = child_slot(m, n, s, i);
            assert(shape_with(m, degree, c, (degree - 1) as nat));
            lemma_reach_child(m, s.offset, s.height, i);
            lemma_frame_reach(m, m2, degree, c, (degree - 1) as nat);
        }
        assert(reach(m2, s.offset, s.height) =~= reach(m, s.offset, s.height));
        assert(n.children[0] == n.children[0]);
    }
}

/// Two files that hold the same nodes where a well-formed subtree reaches
/// agree on what it holds.
pub proof fn lemma_frame_contents<K: Index, V: Value>(
    m: Heap<K, V>,
    m2: Heap<K, V>,
    degree: nat,
    s: Slot<K>,
    room: nat,
)
    requires
        shape_with(m, degree, s, room),
        same_inside(m, m2, reach(m, s.offset, s.height)),
    ensures
        contents(m2, s.offset, s.height) == contents(m, s.offset, s.height),
    decreases s.height,
{
    lemma_reach_top(m, s.offset, s.height);
    assert(m2[s.offset] == m[s.offset]);
    if s.height > 0 {
        let n = m[s.offset];
        let h = (s.height - 1) as nat;
        assert forall|k: K|
            contents(m2, n.children[route(n.keys, k)], h) == contents(
                m,
                n.children[route(n.keys, k)],
                h,
            ) by {
            lemma_route(n.keys, k);
            let r = route(n.keys, k);
            let c = child_slot(m, n, s, r);
            assert(shape_with(m, degree, c, (degree - 1) as nat));
            lemma_reach_child(m, s.offset, s.height, r);
            lemma_frame_contents(m, m2, degree, c, (degree - 1) as nat);
        }
        assert(contents(m2, s.offset, s.height) =~= contents(m, s.offset, s.height));
    }
}

/// A well-formed subtree depends only on the nodes it reaches: where another
/// file holds the same nodes at those offsets, the subtree is well-formed
/// there too.
pub proof fn lemma_frame_shape<K: Index, V: Value>(
    m: Heap<K, V>,
    m2: Heap<K, V>,
    degree: nat,
    s: Slot<K>,
    room: nat,
)
    requires
        shape_with(m, degree, s, room),
        same_inside(m, m2, reach(m, s.offset, s.height)),
    ensures
        shape_with(m2, degree, s, room),
    decreases s.height,
{
    lemma_reach_top(m, s.offset, s.height);
    assert(m2[s.offset] == m[s.offset]);
    if s.height > 0 {
        let n = m[s.offset];
        let h = (s.height - 1) as nat;
        assert forall|i: int| 0 <= i < n.children.len() implies reach(
            m2,
            #[trigger] n.children[i],
            h,
        ) == reach(m, n.children[i], h) && leftmost(m2, n.children[i], h) == leftmost(
            m,
            n.children[i],
            h,
        ) && shape_with(m2, degree, child_slot(m, n, s, i), (degree - 1) as nat) by {
            let c = child_slot(m, n, s, i);
            assert(shape_with(m, degree, c, (degree - 1) as nat));
            lemma_reach_child(m, s.offset, s.height, i);
            lemma_frame_reach(m, m2, degree, c, (degree - 1) as nat);
            lemma_frame_shape(m, m2, degree, c, (degree - 1) as nat);
        }
        assert forall|i: int| 0 <= i < n.children.len() implies shape_with(
            m2,
            degree,
            #[trigger] child_slot(m2, n, s, i),
            (degree - 1) as nat,
        ) by {
            assert(reach(m2, n.children[i], h) == reach(m, n.children[i], h));
            assert(shape_with(m, degree, child_slot(m, n, s, i), (degree - 1) as nat));
            if i < n.keys.len() {
                assert(leftmost(m2, n.children[i + 1], h) == leftmost(m, n.children[i + 1], h));
            }
            assert(child_slot(m2, n, s, i) == child_slot(m, n, s, i));
        }
    }
}

/// A well-formed subtree depends only on the nodes it reaches: where another
/// file holds the same nodes at those offsets, the subtree is well-formed
/// there too, reaches the same nodes, starts with the same leaf and holds the
/// same.
pub proof fn lemma_frame<K: Index, V: Value>(
    m: Heap<K, V>,
    m2: Heap<K, V>,
    degree: nat,
    s: Slot<K>,
    room: nat,
)
    requires
        shape_with(m, degree, s, room),
        same_inside(m, m2, reach(m, s.offset, s.height)),
    ensures
        shape_with(m2, degree, s, room),
        reach(m2, s.offset, s.height) == reach(m, s.offset, s.height),
        leftmost(m2, s.offset, s.height) == leftmost(m, s.offset, s.height),
        contents(m2, s.offset, s.height) == contents(m, s.offset, s.height),
{
    lemma_frame_shape(m, m2, degree, s, room);
    lemma_frame_reach(m, m2, degree, s, room);
    lemma_frame_contents(m, m2, degree, s, room);
}

/// Every key that a well-formed subtree holds lies within the slot's bounds.
pub proof fn lemma_contents_in_range<K: Index, V: Value>(
    m: Heap<K, V>,
    degree: nat,
    s: Slot<K>,
    room: nat,
    key: K,
)
    requires
        shape_with(m, degree, s, room),
        contents(m, s.offset, s.height).contains_key(key),
    ensures
        in_range(key, s.low, s.high),
    decreases s.height,
{
    let n = m[s.offset];
    if s.height == 0 {
        let p = position(n.keys, key);
        assert(in_range(n.keys[p], s.low, s.high));
    } else {
        lemma_route(n.keys, key);
        let r = route(n.keys, key);
        let c = child_slot(m, n, s, r);
        assert(shape_with(m, degree, c, (degree - 1) as nat));
        lemma_contents_in_range(m, degree, c, (degree - 1) as nat, key);
        if r > 0 {
            assert(in_range(n.keys[r - 1], s.low, s.high));
        }
        if r < n.keys.len() {
            assert(in_range(n.keys[r], s.low, s.high));
        }
    }
}

/// A well-formed subtree below the root holds a key.
pub proof fn lemma_holds_key<K: Index, V: Value>(
    m: Heap<K, V>,
    degree: nat,
    s: Slot<K>,
    room: nat,
) -> (key: K)
    requires
        shape_with(m, degree, s, room),
        s.offset != 0,
        degree >= 2,
    ensures
        contents(m, s.offset, s.height).contains_key(key),
        in_range(key, s.low, s.high),
    decreases s.height,
{
    let n = m[s.offset];
    if s.height == 0 {
        assert(has_key(n.keys, n.keys[0]));
        lemma_contents_in_range(m, degree, s, room, n.keys[0]);
        n.keys[0]
    } else {
        let c = child_slot(m, n, s, 0);
        assert(n.children[0] != 0);
        assert(shape_with(m, degree, c, (degree - 1) as nat));
        let key = lemma_holds_key(m, degree, c, (degree - 1) as nat);
        lemma_route(n.keys, key);
        assert(crate::nodes::crud::is_route(n.keys, key, 0));
        lemma_contents_in_range(m, degree, s, room, key);
        key
    }
}

} // verus!
