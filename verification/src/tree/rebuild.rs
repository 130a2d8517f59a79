//! Writing a node over well-formed children.

use vstd::prelude::*;
use crate::index::Index;
use crate::node_type::NodeType;
use crate::nodes::crud::{lemma_route, route, sorted};
use crate::nodes::io::Heap;
use crate::nodes::NodeView;
use crate::tree::frame::{lemma_frame, lemma_reach_dom, same_inside};
use crate::tree::shape::{child_slot, contents, in_range, leftmost, min_keys, reach, shape_with, Slot};
use crate::value::Value;

verus! {

/// Whether `t` can stand at the top of slot `s`: it records the slot's parent
/// and whether it is the root, holds at most `room` ascending keys within the
/// bounds, and has the form of a leaf linked to the slot's next leaf, with
/// the least number of keys unless it is the root, or of an internal node
/// with a key and one child more than keys, none of them at offset zero.
pub open spec fn top_ok<K: Index, V: Value>(
    t: NodeView<K, V>,
    degree: nat,
    s: Slot<K>,
    room: nat,
) -> bool {
    &&& t.parent_offset == s.parent
    &&& t.is_root == (s.offset == 0)
    &&& t.keys.len() <= room
    &&& sorted(t.keys)
    &&& forall|i: int| 0 <= i < t.keys.len() ==> in_range(#[trigger] t.keys[i], s.low, s.high)
    &&& if s.height == 0 {
        &&& t.node_type == NodeType::Leaf(s.next)
        &&& t.values.len() == t.keys.len()
        &&& t.children.len() == 0
        &&& s.offset != 0 ==> t.keys.len() >= min_keys(degree)
    } else {
        &&& t.node_type == NodeType::Internal
        &&& t.values.len() == 0
        &&& t.children.len() == t.keys.len() + 1
        &&& t.keys.len() >= 1
        &&& forall|i: int| 0 <= i < t.children.len() ==> (#[trigger] t.children[i]) != 0
    }
}

/// Whether the children of `t`, a node for the top of slot `s`, are
/// well-formed subtrees of `m` in the slots that `t` gives them, none of
/// which reaches the slot's own offset or a node of another.
pub open spec fn children_ok<K: Index, V: Value>(
    m: Heap<K, V>,
    degree: nat,
    t: NodeView<K, V>,
    s: Slot<K>,
) -> bool {
    &&& t.children.len() == t.keys.len() + 1
    &&& forall|i: int|
        0 <= i < t.children.len() ==> shape_with(
            m,
            degree,
            #[trigger] child_slot(m, t, s, i),
            (degree - 1) as nat,
        )
    &&& forall|i: int|
        0 <= i < t.children.len() ==> !(#[trigger] reach(
            m,
            t.children[i],
            (s.height - 1) as nat,
        )).contains(s.offset)
    &&& forall|i: int, j: int|
        0 <= i < j < t.children.len() ==> (#[trigger] reach(
            m,
            t.children[i],
            (s.height - 1) as nat,
        )).disjoint(#[trigger] reach(m, t.children[j], (s.height - 1) as nat))
}

/// Whether `t` can stand at the top of slot `s` but for the least number of
/// keys: as [`top_ok`], except that a leaf may hold any number of keys and an
/// internal node may hold none, with its one child.
pub open spec fn top_loose<K: Index, V: Value>(
    t: NodeView<K, V>,
    degree: nat,
    s: Slot<K>,
    room: nat,
) -> bool {
    &&& t.parent_offset == s.parent
    &&& t.is_root == (s.offset == 0)
    &&& t.keys.len() <= room
    &&& sorted(t.keys)
    &&& forall|i: int| 0 <= i < t.keys.len() ==> in_range(#[trigger] t.keys[i], s.low, s.high)
    &&& if s.height == 0 {
        &&& t.node_type == NodeType::Leaf(s.next)
        &&& t.values.len() == t.keys.len()
        &&& t.children.len() == 0
    } else {
        &&& t.node_type == NodeType::Internal
        &&& t.values.len() == 0
        &&& t.children.len() == t.keys.len() + 1
        &&& forall|i: int| 0 <= i < t.children.len() ==> (#[trigger] t.children[i]) != 0
    }
}

/// Whether the nodes under `s` form a B+Tree but for the number of keys in
/// the top node, which may be below the least.
pub open spec fn loose<K: Index, V: Value>(
    m: Heap<K, V>,
    degree: nat,
    s: Slot<K>,
    room: nat,
) -> bool {
    &&& m.dom().contains(s.offset)
    &&& top_loose(m[s.offset], degree, s, room)
    &&& s.height > 0 ==> children_ok(m, degree, m[s.offset], s)
}

/// Whether the top node of slot `s` holds the least number of keys: a leaf
/// that is not the root half the degree, rounded down, and an internal node
/// one.
pub open spec fn enough<K, V>(t: NodeView<K, V>, degree: nat, s: Slot<K>) -> bool {
    if s.height == 0 {
        s.offset != 0 ==> t.keys.len() >= min_keys(degree)
    } else {
        t.keys.len() >= 1
    }
}

/// A subtree is well-formed exactly if it is so but for the number of keys
/// at its top and the top node holds the least number.
pub proof fn lemma_loose<K: Index, V: Value>(m: Heap<K, V>, degree: nat, s: Slot<K>, room: nat)
    ensures
        shape_with(m, degree, s, room) <==> loose(m, degree, s, room) && enough(
            m[s.offset],
            degree,
            s,
        ),
{
    lemma_shape_parts(m, degree, s, room);
}

/// Writing a node that can stand at the top of a slot, but for the number of
/// its keys, over well-formed children gives a subtree that is well-formed
/// but for that number.
pub proof fn lemma_rebuild_loose<K: Index, V: Value>(
    m: Heap<K, V>,
    degree: nat,
    s: Slot<K>,
    room: nat,
    t: NodeView<K, V>,
)
    requires
        top_loose(t, degree, s, room),
        s.height > 0 ==> children_ok(m, degree, t, s),
    ensures
        loose(m.insert(s.offset, t), degree, s, room),
{
    let m2 = m.insert(s.offset, t);
    if s.height > 0 {
        let h = (s.height - 1) as nat;
        assert forall|i: int| 0 <= i < t.children.len() implies shape_with(
            m2,
            degree,
            #[trigger] child_slot(m2, t, s, i),
            (degree - 1) as nat,
        ) by {
            lemma_rebuilt_child(m, degree, s, t, i);
        }
        assert forall|i: int| 0 <= i < t.children.len() implies !(#[trigger] reach(
            m2,
            t.children[i],
            h,
        )).contains(s.offset) by {
            lemma_rebuilt_child(m, degree, s, t, i);
            assert(!reach(m, t.children[i], h).contains(s.offset));
        }
        assert forall|i: int, j: int| 0 <= i < j < t.children.len() implies (#[trigger] reach(
            m2,
            t.children[i],
            h,
        )).disjoint(#[trigger] reach(m2, t.children[j], h)) by {
            lemma_rebuilt_child(m, degree, s, t, i);
            lemma_rebuilt_child(m, degree, s, t, j);
            assert(reach(m, t.children[i], h).disjoint(reach(m, t.children[j], h)));
        }
        assert(children_ok(m2, degree, t, s));
    }
}

/// A subtree is well-formed exactly if its top node can stand there and, in
/// an internal node, the children are well-formed subtrees.
pub proof fn lemma_shape_parts<K: Index, V: Value>(
    m: Heap<K, V>,
    degree: nat,
    s: Slot<K>,
    room: nat,
)
    ensures
        shape_with(m, degree, s, room) <==> m.dom().contains(s.offset) && top_ok(
            m[s.offset],
            degree,
            s,
            room,
        ) && (s.height > 0 ==> children_ok(m, degree, m[s.offset], s)),
{
}

/// A well-formed subtree that does not reach `offset` is what it was when a
/// node is written at `offset`.
pub proof fn lemma_under_top<K: Index, V: Value>(
    m: Heap<K, V>,
    degree: nat,
    c: Slot<K>,
    offset: u64,
    t: NodeView<K, V>,
)
    requires
        shape_with(m, degree, c, (degree - 1) as nat),
        !reach(m, c.offset, c.height).contains(offset),
    ensures
        ({
            let m2 = m.insert(offset, t);
            &&& shape_with(m2, degree, c, (degree - 1) as nat)
            &&& reach(m2, c.offset, c.height) == reach(m, c.offset, c.height)
            &&& leftmost(m2, c.offset, c.height) == leftmost(m, c.offset, c.height)
            &&& contents(m2, c.offset, c.height) == contents(m, c.offset, c.height)
        }),
{
    let m2 = m.insert(offset, t);
    lemma_reach_dom(m, degree, c, (degree - 1) as nat);
    assert(same_inside(m, m2, reach(m, c.offset, c.height)));
    lemma_frame(m, m2, degree, c, (degree - 1) as nat);
}

/// Each child of a node that is written over well-formed children is what it
/// was before the node was written.
pub proof fn lemma_rebuilt_child<K: Index, V: Value>(
    m: Heap<K, V>,
    degree: nat,
    s: Slot<K>,
    t: NodeView<K, V>,
    i: int,
)
    requires
        s.height > 0,
        children_ok(m, degree, t, s),
        0 <= i < t.children.len(),
    ensures
        ({
            let m2 = m.insert(s.offset, t);
            let h = (s.height - 1) as nat;
            &&& child_slot(m2, t, s, i) == child_slot(m, t, s, i)
            &&& shape_with(m2, degree, child_slot(m, t, s, i), (degree - 1) as nat)
            &&& reach(m2, t.children[i], h) == reach(m, t.children[i], h)
            &&& leftmost(m2, t.children[i], h) == leftmost(m, t.children[i], h)
            &&& contents(m2, t.children[i], h) == contents(m, t.children[i], h)
        }),
{
    let c = child_slot(m, t, s, i);
    assert(shape_with(m, degree, c, (degree - 1) as nat));
    assert(!reach(m, t.children[i], (s.height - 1) as nat).contains(s.offset));
    lemma_under_top(m, degree, c, s.offset, t);
    if i + 1 < t.children.len() {
        let d = child_slot(m, t, s, i + 1);
        assert(shape_with(m, degree, d, (degree - 1) as nat));
        assert(!reach(m, t.children[i + 1], (s.height - 1) as nat).contains(s.offset));
        lemma_under_top(m, degree, d, s.offset, t);
    }
}

/// Writing a node that can stand at the top of a slot over well-formed
/// children gives a well-formed subtree.
pub proof fn lemma_rebuild<K: Index, V: Value>(
    m: Heap<K, V>,
    degree: nat,
    s: Slot<K>,
    room: nat,
    t: NodeView<K, V>,
)
    requires
        top_ok(t, degree, s, room),
        s.height > 0 ==> children_ok(m, degree, t, s),
    ensures
        shape_with(m.insert(s.offset, t), degree, s, room),
{
    let m2 = m.insert(s.offset, t);
    if s.height > 0 {
        let h = (s.height - 1) as nat;
        assert forall|i: int| 0 <= i < t.children.len() implies shape_with(
            m2,
            degree,
            #[trigger] child_slot(m2, t, s, i),
            (degree - 1) as nat,
        ) by {
            lemma_rebuilt_child(m, degree, s, t, i);
        }
        assert forall|i: int| 0 <= i < t.children.len() implies !(#[trigger] reach(
            m2,
            t.children[i],
            h,
        )).contains(s.offset) by {
            lemma_rebuilt_child(m, degree, s, t, i);
            assert(!reach(m, t.children[i], h).contains(s.offset));
        }
        assert forall|i: int, j: int| 0 <= i < j < t.children.len() implies (#[trigger] reach(
            m2,
            t.children[i],
            h,
        )).disjoint(#[trigger] reach(m2, t.children[j], h)) by {
            lemma_rebuilt_child(m, degree, s, t, i);
            lemma_rebuilt_child(m, degree, s, t, j);
            assert(reach(m, t.children[i], h).disjoint(reach(m, t.children[j], h)));
        }
        assert(children_ok(m2, degree, t, s));
    }
    lemma_shape_parts(m2, degree, s, room);
}

/// What a rebuilt internal node holds for a key is what the child holds that
/// the key is routed to.
pub proof fn lemma_rebuilt_contents<K: Index, V: Value>(
    m: Heap<K, V>,
    degree: nat,
    s: Slot<K>,
    t: NodeView<K, V>,
    key: K,
)
    requires
        s.height > 0,
        children_ok(m, degree, t, s),
    ensures
        contents(m.insert(s.offset, t), s.offset, s.height).get(key) == contents(
            m,
            t.children[route(t.keys, key)],
            (s.height - 1) as nat,
        ).get(key),
{
    lemma_route(t.keys, key);
    lemma_rebuilt_child(m, degree, s, t, route(t.keys, key));
}

/// What a rebuilt internal node reaches is itself and what its children
/// reach; its first leaf is that of its first child.
pub proof fn lemma_rebuilt_reach<K: Index, V: Value>(
    m: Heap<K, V>,
    degree: nat,
    s: Slot<K>,
    t: NodeView<K, V>,
)
    requires
        s.height > 0,
        children_ok(m, degree, t, s),
    ensures
        forall|o: u64|
            #[trigger] reach(m.insert(s.offset, t), s.offset, s.height).contains(o) <==> (o
                == s.offset || exists|i: int|
                0 <= i < t.children.len() && reach(
                    m,
                    #[trigger] t.children[i],
                    (s.height - 1) as nat,
                ).contains(o)),
        leftmost(m.insert(s.offset, t), s.offset, s.height) == leftmost(
            m,
            t.children[0],
            (s.height - 1) as nat,
        ),
{
    let m2 = m.insert(s.offset, t);
    let h = (s.height - 1) as nat;
    lemma_rebuilt_child(m, degree, s, t, 0);
    assert forall|o: u64| #[trigger]
        reach(m2, s.offset, s.height).contains(o) <==> (o == s.offset || exists|i: int|
            0 <= i < t.children.len() && reach(m, #[trigger] t.children[i], h).contains(o)) by {
        if reach(m2, s.offset, s.height).contains(o) && o != s.offset {
            let i = choose|i: int|
                0 <= i < t.children.len() && reach(m2, #[trigger] t.children[i], h).contains(o);
            lemma_rebuilt_child(m, degree, s, t, i);
        }
        if exists|i: int| 0 <= i < t.children.len() && reach(m, #[trigger] t.children[i], h).contains(o) {
            let i = choose|i: int|
                0 <= i < t.children.len() && reach(m, #[trigger] t.children[i], h).contains(o);
            lemma_rebuilt_child(m, degree, s, t, i);
            assert(reach(m2, t.children[i], h).contains(o));
        }
    }
}

} // verus!
