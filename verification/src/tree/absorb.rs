//! How the node above takes in what has changed in a child.

use vstd::prelude::*;
use crate::index::Index;
use crate::nodes::crud::{
    has_key, lemma_leaf_map_update, lemma_route, lemma_route_insert, lemma_sorted_position, route,
};
use crate::tree::grow::{leaf_with, lemma_leaf_put};
use crate::nodes::io::Heap;
use crate::nodes::NodeView;
use crate::tree::divide::{
    divided, dividing, left_slot, lemma_children_apart, lemma_divided_contents,
    lemma_divided_left, lemma_divided_nodes, lemma_divided_right, right_slot,
};
use crate::tree::frame::{
    confined, lemma_frame, lemma_reach_child, lemma_reach_dom, lemma_reach_top, same_inside,
    same_outside,
};
use crate::tree::rebuild::{
    children_ok, lemma_rebuild, lemma_rebuilt_contents, lemma_rebuilt_reach, lemma_shape_parts,
    top_ok,
};
use crate::tree::reparent::lemma_child;
use crate::tree::shape::{child_slot, contents, in_range, leftmost, reach, shape_with, Slot};
use crate::value::Value;

verus! {

/// Whether the subtree of slot `s` has taken in a change without outgrowing
/// its top node, or by outgrowing it by one key.
///
/// `m` is the file before the change and `m2` the file after it; `top` is
/// the node for the top of the slot, which stands in `m2` already or, where
/// it is overfull, is still to be divided. With `top` in its place the
/// subtree is well-formed with room for `room` keys at the top, holds
/// `expected` and starts with the leaf it started with. It reaches only
/// nodes that it reached before or that are new, and no node outside it has
/// changed or gone.
#[verifier::opaque]
pub open spec fn put_ok<K: Index, V: Value>(
    m: Heap<K, V>,
    m2: Heap<K, V>,
    degree: nat,
    s: Slot<K>,
    top: NodeView<K, V>,
    room: nat,
    expected: Map<K, V>,
) -> bool {
    let mv = m2.insert(s.offset, top);
    &&& shape_with(mv, degree, s, room)
    &&& contents(mv, s.offset, s.height) == expected
    &&& leftmost(mv, s.offset, s.height) == leftmost(m, s.offset, s.height)
    &&& confined(m, reach(mv, s.offset, s.height), reach(m, s.offset, s.height))
    &&& same_outside(m, m2, reach(m, s.offset, s.height))
    &&& m.dom().subset_of(m2.dom())
}

/// Whether the subtree of slot `s` has taken in a change by dividing its top
/// node.
///
/// `m` is the file before the change and `m3` the file after it. The left
/// half stands where the top node stood, the right half at the new offset
/// `right`; both are well-formed, with `separator` as the bound between
/// them, strictly above the slot's lower bound. Of `expected` each half holds
/// what lies on its side of the separator. The first leaf is the one it was.
/// The halves share no node, reach only nodes that the subtree reached before
/// or that are new, and no node outside has changed or gone.
#[verifier::opaque]
pub open spec fn split_ok<K: Index, V: Value>(
    m: Heap<K, V>,
    m3: Heap<K, V>,
    degree: nat,
    s: Slot<K>,
    separator: K,
    right: u64,
    expected: Map<K, V>,
) -> bool {
    &&& right != 0
    &&& !m.dom().contains(right)
    &&& shape_with(m3, degree, left_slot(m3, s, separator, right), (degree - 1) as nat)
    &&& shape_with(m3, degree, right_slot(s, separator, right), (degree - 1) as nat)
    &&& in_range(separator, s.low, s.high)
    &&& s.low matches Some(low) ==> low.rank() < separator.rank()
    &&& forall|k: K|
        #![trigger expected.get(k)]
        expected.get(k) == if k.rank() < separator.rank() {
            contents(m3, s.offset, s.height).get(k)
        } else {
            contents(m3, right, s.height).get(k)
        }
    &&& leftmost(m3, s.offset, s.height) == leftmost(m, s.offset, s.height)
    &&& confined(m, reach(m3, s.offset, s.height), reach(m, s.offset, s.height))
    &&& confined(m, reach(m3, right, s.height), reach(m, s.offset, s.height))
    &&& reach(m3, s.offset, s.height).disjoint(reach(m3, right, s.height))
    &&& same_outside(m, m3, reach(m, s.offset, s.height))
    &&& m.dom().subset_of(m3.dom())
}

/// Dividing the overfull top node of a subtree that has taken in a change
/// completes the change.
pub proof fn lemma_split_from_put<K: Index, V: Value>(
    m: Heap<K, V>,
    m2: Heap<K, V>,
    degree: nat,
    s: Slot<K>,
    over: NodeView<K, V>,
    right: u64,
    expected: Map<K, V>,
)
    requires
        put_ok(m, m2, degree, s, over, degree, expected),
        degree >= 3,
        degree % 2 == 1,
        over.keys.len() == degree,
        right != 0,
        right != s.offset,
        !m2.dom().contains(right),
    ensures
        split_ok(
            m,
            divided(m2, degree, s, over, right, (degree / 2) as int),
            degree,
            s,
            over.keys[(degree / 2) as int],
            right,
            expected,
        ),
{
    reveal(put_ok);
    reveal(split_ok);
    let mv = m2.insert(s.offset, over);
    let m3 = divided(m2, degree, s, over, right, (degree / 2) as int);
    let separator = over.keys[(degree / 2) as int];
    lemma_reach_dom(mv, degree, s, degree);
    assert(dividing(m2, degree, s, over, right, (degree / 2) as int));
    lemma_divided_nodes(m2, degree, s, over, right, (degree / 2) as int);
    lemma_divided_left(m2, degree, s, over, right, (degree / 2) as int);
    lemma_divided_right(m2, degree, s, over, right, (degree / 2) as int);
    assert forall|k: K|
        #![trigger expected.get(k)]
        expected.get(k) == if k.rank() < separator.rank() {
            contents(m3, s.offset, s.height).get(k)
        } else {
            contents(m3, right, s.height).get(k)
        } by {
        lemma_divided_contents(m2, degree, s, over, right, (degree / 2) as int, k);
    }
    assert forall|o: u64|
        #![trigger m3[o]]
        #![trigger m3.dom().contains(o)]
        m.dom().contains(o) && !reach(m, s.offset, s.height).contains(o) implies m3.dom().contains(
            o,
        ) && m3[o] == m[o] by {
        assert(m2.dom().contains(o) && m2[o] == m[o]);
        assert(!reach(mv, s.offset, s.height).contains(o));
    }
    assert forall|o: u64| #[trigger]
        reach(m3, right, s.height).contains(o) implies reach(m, s.offset, s.height).contains(o)
        || !m.dom().contains(o) by {
        if o != right {
            assert(reach(mv, s.offset, s.height).contains(o));
        }
    }
}

/// Whether `whole` is what the subtree of slot `s` holds once child `i` of
/// its top node holds `part` and every other child what it held.
pub open spec fn changed_in<K: Index, V: Value>(
    m: Heap<K, V>,
    s: Slot<K>,
    i: int,
    part: Map<K, V>,
    whole: Map<K, V>,
) -> bool {
    forall|k: K|
        #![trigger whole.get(k)]
        whole.get(k) == if route(m[s.offset].keys, k) == i {
            part.get(k)
        } else {
            contents(m, s.offset, s.height).get(k)
        }
}

/// A pair that goes into the child that its key belongs to goes into the
/// subtree of the node above.
pub proof fn lemma_insert_changes<K: Index, V: Value>(m: Heap<K, V>, s: Slot<K>, key: K, value: V)
    requires
        s.height > 0,
        m.dom().contains(s.offset),
    ensures
        changed_in(
            m,
            s,
            route(m[s.offset].keys, key),
            contents(
                m,
                m[s.offset].children[route(m[s.offset].keys, key)],
                (s.height - 1) as nat,
            ).insert(key, value),
            contents(m, s.offset, s.height).insert(key, value),
        ),
{
}

/// A key that leaves the child that it belongs to leaves the subtree of the
/// node above.
pub proof fn lemma_remove_changes<K: Index, V: Value>(m: Heap<K, V>, s: Slot<K>, key: K)
    requires
        s.height > 0,
        m.dom().contains(s.offset),
    ensures
        changed_in(
            m,
            s,
            route(m[s.offset].keys, key),
            contents(
                m,
                m[s.offset].children[route(m[s.offset].keys, key)],
                (s.height - 1) as nat,
            ).remove(key),
            contents(m, s.offset, s.height).remove(key),
        ),
{
}

/// The node with a separator at index `i` and the child to its right behind
/// child `i`.
pub open spec fn absorbed<K, V>(n: NodeView<K, V>, i: int, separator: K, right: u64) -> NodeView<
    K,
    V,
> {
    NodeView {
        keys: n.keys.insert(i, separator),
        children: n.children.insert(i + 1, right),
        ..n
    }
}

/// A change inside one child of a well-formed node leaves every other child
/// what it was.
pub proof fn lemma_sibling<K: Index, V: Value>(
    m: Heap<K, V>,
    m3: Heap<K, V>,
    degree: nat,
    s: Slot<K>,
    room: nat,
    i: int,
    j: int,
)
    requires
        shape_with(m, degree, s, room),
        s.height > 0,
        0 <= i < m[s.offset].children.len(),
        0 <= j < m[s.offset].children.len(),
        i != j,
        same_outside(m, m3, reach(m, m[s.offset].children[i], (s.height - 1) as nat)),
    ensures
        ({
            let c = child_slot(m, m[s.offset], s, j);
            &&& c.offset == m[s.offset].children[j]
            &&& shape_with(m3, degree, c, (degree - 1) as nat)
            &&& reach(m3, c.offset, c.height) == reach(m, c.offset, c.height)
            &&& leftmost(m3, c.offset, c.height) == leftmost(m, c.offset, c.height)
            &&& contents(m3, c.offset, c.height) == contents(m, c.offset, c.height)
            &&& reach(m, c.offset, c.height).subset_of(m.dom())
            &&& reach(m, c.offset, c.height).subset_of(reach(m, s.offset, s.height))
            &&& !reach(m, c.offset, c.height).contains(s.offset)
            &&& reach(m, c.offset, c.height).disjoint(
                reach(m, m[s.offset].children[i], (s.height - 1) as nat),
            )
        }),
{
    let n = m[s.offset];
    let c = child_slot(m, n, s, j);
    lemma_child(m, degree, s, room, j);
    lemma_children_apart(m, degree, s, room, j, i);
    lemma_reach_dom(m, degree, c, (degree - 1) as nat);
    lemma_reach_child(m, s.offset, s.height, j);
    assert(same_inside(m, m3, reach(m, c.offset, c.height)));
    lemma_frame(m, m3, degree, c, (degree - 1) as nat);
}

/// Whether child `i` of the top node of slot `s`, the child that `key`
/// belongs to, has taken in a change to `expected` without dividing.
pub open spec fn child_put<K: Index, V: Value>(
    m: Heap<K, V>,
    m3: Heap<K, V>,
    degree: nat,
    s: Slot<K>,
    room: nat,
    i: int,
    expected: Map<K, V>,
) -> bool {
    let n = m[s.offset];
    let c = child_slot(m, n, s, i);
    &&& shape_with(m, degree, s, room)
    &&& s.height > 0
    &&& 0 <= i < n.children.len()
    &&& m3.dom().contains(c.offset)
    &&& put_ok(m, m3, degree, c, m3[c.offset], (degree - 1) as nat, expected)
}

/// After a change inside child `i` that did not divide it, each child of the
/// node is a well-formed subtree in its slot.
pub proof fn lemma_put_child<K: Index, V: Value>(
    m: Heap<K, V>,
    m3: Heap<K, V>,
    degree: nat,
    s: Slot<K>,
    room: nat,
    i: int,
    expected: Map<K, V>,
    j: int,
)
    requires
        child_put(m, m3, degree, s, room, i, expected),
        0 <= j < m[s.offset].children.len(),
    ensures
        ({
            let n = m[s.offset];
            let h = (s.height - 1) as nat;
            &&& m3.dom().contains(s.offset)
            &&& m3[s.offset] == n
            &&& shape_with(m3, degree, child_slot(m, n, s, j), (degree - 1) as nat)
            &&& leftmost(m3, n.children[j], h) == leftmost(m, n.children[j], h)
            &&& confined(m, reach(m3, n.children[j], h), reach(m, n.children[j], h))
            &&& reach(m, n.children[j], h).subset_of(reach(m, s.offset, s.height))
            &&& !reach(m3, n.children[j], h).contains(s.offset)
            &&& j != i ==> reach(m3, n.children[j], h) == reach(m, n.children[j], h) && contents(
                m3,
                n.children[j],
                h,
            ) == contents(m, n.children[j], h) && reach(m, n.children[j], h).subset_of(m.dom())
                && reach(m, n.children[j], h).disjoint(reach(m, n.children[i], h))
            &&& j == i ==> contents(m3, n.children[j], h) == expected
        }),
{
    reveal(put_ok);
    reveal(split_ok);
    let n = m[s.offset];
    let h = (s.height - 1) as nat;
    let c = child_slot(m, n, s, i);
    lemma_child(m, degree, s, room, i);
    lemma_child(m, degree, s, room, j);
    lemma_reach_top(m, s.offset, s.height);
    lemma_reach_child(m, s.offset, s.height, j);
    assert(m3.insert(c.offset, m3[c.offset]) =~= m3);
    if j != i {
        lemma_sibling(m, m3, degree, s, room, i, j);
    }
}

/// After a change inside the child that did not divide it, the subtree of
/// the node above has taken in the change.
pub proof fn lemma_absorb_put<K: Index, V: Value>(
    m: Heap<K, V>,
    m3: Heap<K, V>,
    degree: nat,
    s: Slot<K>,
    room: nat,
    i: int,
    expected: Map<K, V>,
    whole: Map<K, V>,
)
    requires
        child_put(m, m3, degree, s, room, i, expected),
        changed_in(m, s, i, expected, whole),
    ensures
        m3.dom().contains(s.offset),
        m3[s.offset] == m[s.offset],
        put_ok(m, m3, degree, s, m[s.offset], room, whole),
{
    reveal(put_ok);
    reveal(split_ok);
    let n = m[s.offset];
    let h = (s.height - 1) as nat;
    lemma_put_child(m, m3, degree, s, room, i, expected, i);
    lemma_shape_parts(m, degree, s, room);
    assert(children_ok(m3, degree, n, s)) by {
        assert forall|j: int| 0 <= j < n.children.len() implies shape_with(
            m3,
            degree,
            #[trigger] child_slot(m3, n, s, j),
            (degree - 1) as nat,
        ) by {
            lemma_put_child(m, m3, degree, s, room, i, expected, j);
            if j + 1 < n.children.len() {
                lemma_put_child(m, m3, degree, s, room, i, expected, j + 1);
            }
            assert(child_slot(m3, n, s, j) == child_slot(m, n, s, j));
        }
        assert forall|j: int| 0 <= j < n.children.len() implies !(#[trigger] reach(
            m3,
            n.children[j],
            h,
        )).contains(s.offset) by {
            lemma_put_child(m, m3, degree, s, room, i, expected, j);
        }
        assert forall|a: int, b: int| 0 <= a < b < n.children.len() implies (#[trigger] reach(
            m3,
            n.children[a],
            h,
        )).disjoint(#[trigger] reach(m3, n.children[b], h)) by {
            lemma_put_child(m, m3, degree, s, room, i, expected, a);
            lemma_put_child(m, m3, degree, s, room, i, expected, b);
            lemma_children_apart(m, degree, s, room, a, b);
        }
    }
    assert(m3.insert(s.offset, n) =~= m3);
    lemma_rebuild(m3, degree, s, room, n);
    lemma_rebuilt_reach(m3, degree, s, n);
    lemma_put_child(m, m3, degree, s, room, i, expected, 0);
    assert(contents(m3, s.offset, s.height) =~= whole) by {
        assert forall|k: K| contents(m3, s.offset, s.height).get(k) == whole.get(k) by {
            lemma_rebuilt_contents(m3, degree, s, n, k);
            lemma_route(n.keys, k);
            lemma_put_child(m, m3, degree, s, room, i, expected, route(n.keys, k));
        }
        assert forall|k: K| contents(m3, s.offset, s.height).dom().contains(k) == whole.dom().contains(
            k,
        ) by {
            assert(contents(m3, s.offset, s.height).get(k) == whole.get(k));
        }
        assert forall|k: K| contents(m3, s.offset, s.height).dom().contains(k) implies contents(
            m3,
            s.offset,
            s.height,
        )[k] == whole[k] by {
            assert(contents(m3, s.offset, s.height).get(k) == whole.get(k));
        }
    }
    assert forall|o: u64| #[trigger]
        reach(m3, s.offset, s.height).contains(o) implies reach(m, s.offset, s.height).contains(o)
        || !m.dom().contains(o) by {
        lemma_reach_top(m, s.offset, s.height);
        if o != s.offset {
            let j = choose|j: int|
                0 <= j < n.children.len() && reach(m3, #[trigger] n.children[j], h).contains(o);
            lemma_put_child(m, m3, degree, s, room, i, expected, j);
        }
    }
    assert forall|o: u64|
        #![trigger m3[o]]
        #![trigger m3.dom().contains(o)]
        m.dom().contains(o) && !reach(m, s.offset, s.height).contains(o) implies m3.dom().contains(
            o,
        ) && m3[o] == m[o] by {
        lemma_reach_child(m, s.offset, s.height, i);
    }
}

/// Whether child `i` of the top node of slot `s` has taken in a change to
/// `expected` by dividing, with `separator` between its halves and the right
/// half at `right`.
pub open spec fn child_split<K: Index, V: Value>(
    m: Heap<K, V>,
    m3: Heap<K, V>,
    degree: nat,
    s: Slot<K>,
    room: nat,
    i: int,
    separator: K,
    right: u64,
    expected: Map<K, V>,
) -> bool {
    let n = m[s.offset];
    let c = child_slot(m, n, s, i);
    &&& shape_with(m, degree, s, room)
    &&& s.height > 0
    &&& 0 <= i < n.children.len()
    &&& split_ok(m, m3, degree, c, separator, right, expected)
}

/// The index that child `j` of a node had before a child was put in behind
/// child `i`.
pub open spec fn origin(i: int, j: int) -> int {
    if j <= i {
        j
    } else {
        j - 1
    }
}

/// After child `i` has divided, each child of the node that takes the new
/// separator in is a well-formed subtree in its slot.
pub proof fn lemma_split_child<K: Index, V: Value>(
    m: Heap<K, V>,
    m3: Heap<K, V>,
    degree: nat,
    s: Slot<K>,
    room: nat,
    i: int,
    separator: K,
    right: u64,
    expected: Map<K, V>,
    j: int,
)
    requires
        child_split(m, m3, degree, s, room, i, separator, right, expected),
        0 <= j <= m[s.offset].children.len(),
    ensures
        ({
            let n = m[s.offset];
            let t = absorbed(n, i, separator, right);
            let h = (s.height - 1) as nat;
            let old_child = n.children[origin(i, j)];
            &&& m3.dom().contains(s.offset)
            &&& m3[s.offset] == n
            &&& n.children.len() == n.keys.len() + 1
            &&& t.children.len() == n.children.len() + 1
            &&& t.keys.len() == n.keys.len() + 1
            &&& t.children[j] != 0
            &&& t.children[j] == if j == i + 1 {
                right
            } else {
                old_child
            }
            &&& !reach(m3, t.children[j], h).contains(s.offset)
            &&& confined(m, reach(m3, t.children[j], h), reach(m, old_child, h))
            &&& reach(m, old_child, h).subset_of(reach(m, s.offset, s.height))
            &&& reach(m, old_child, h).subset_of(m.dom())
            &&& j != i + 1 ==> leftmost(m3, t.children[j], h) == leftmost(m, old_child, h)
            &&& j != i && j != i + 1 ==> reach(m3, t.children[j], h) == reach(m, old_child, h)
                && contents(m3, t.children[j], h) == contents(m, old_child, h) && shape_with(
                m3,
                degree,
                child_slot(m, n, s, origin(i, j)),
                (degree - 1) as nat,
            )
        }),
{
    reveal(put_ok);
    reveal(split_ok);
    let n = m[s.offset];
    let t = absorbed(n, i, separator, right);
    let h = (s.height - 1) as nat;
    let c = child_slot(m, n, s, i);
    let o = origin(i, j);
    lemma_child(m, degree, s, room, i);
    lemma_child(m, degree, s, room, o);
    lemma_reach_top(m, s.offset, s.height);
    lemma_reach_child(m, s.offset, s.height, o);
    lemma_reach_dom(m, degree, child_slot(m, n, s, o), (degree - 1) as nat);
    if j != i && j != i + 1 {
        lemma_sibling(m, m3, degree, s, room, i, o);
    }
}

/// After child `i` has divided, the slot that the node with the new
/// separator gives to each child is the slot in which the child is a
/// well-formed subtree.
pub proof fn lemma_split_child_slot<K: Index, V: Value>(
    m: Heap<K, V>,
    m3: Heap<K, V>,
    degree: nat,
    s: Slot<K>,
    room: nat,
    i: int,
    separator: K,
    right: u64,
    expected: Map<K, V>,
    j: int,
)
    requires
        child_split(m, m3, degree, s, room, i, separator, right, expected),
        0 <= j <= m[s.offset].children.len(),
    ensures
        ({
            let n = m[s.offset];
            let t = absorbed(n, i, separator, right);
            let c = child_slot(m, n, s, i);
            &&& child_slot(m3, t, s, j) == if j == i {
                left_slot(m3, c, separator, right)
            } else if j == i + 1 {
                right_slot(c, separator, right)
            } else {
                child_slot(m, n, s, origin(i, j))
            }
            &&& shape_with(m3, degree, child_slot(m3, t, s, j), (degree - 1) as nat)
        }),
{
    reveal(put_ok);
    reveal(split_ok);
    let n = m[s.offset];
    let t = absorbed(n, i, separator, right);
    let c = child_slot(m, n, s, i);
    lemma_split_child(m, m3, degree, s, room, i, separator, right, expected, j);
    if j + 1 <= n.children.len() {
        lemma_split_child(m, m3, degree, s, room, i, separator, right, expected, j + 1);
    }
}

/// After the child has divided, the subtree of the node above has taken in
/// the change, by one key more at its top.
pub proof fn lemma_absorb_split<K: Index, V: Value>(
    m: Heap<K, V>,
    m3: Heap<K, V>,
    degree: nat,
    s: Slot<K>,
    room: nat,
    i: int,
    expected: Map<K, V>,
    whole: Map<K, V>,
    separator: K,
    right: u64,
)
    requires
        child_split(m, m3, degree, s, room, i, separator, right, expected),
        changed_in(m, s, i, expected, whole),
    ensures
        m3.dom().contains(s.offset),
        m3[s.offset] == m[s.offset],
        put_ok(m, m3, degree, s, absorbed(m[s.offset], i, separator, right), room + 1, whole),
{
    reveal(put_ok);
    reveal(split_ok);
    let n = m[s.offset];
    let h = (s.height - 1) as nat;
    let c = child_slot(m, n, s, i);
    let t = absorbed(n, i, separator, right);
    let mv = m3.insert(s.offset, t);
    lemma_split_child(m, m3, degree, s, room, i, separator, right, expected, i);
    lemma_shape_parts(m, degree, s, room);
    if i > 0 {
        assert(in_range(n.keys[i - 1], s.low, s.high));
    }
    if i < n.keys.len() {
        assert(in_range(n.keys[i], s.low, s.high));
    }
    lemma_route_insert(n.keys, i, separator, separator);
    assert(top_ok(t, degree, s, room + 1)) by {
        assert forall|a: int| 0 <= a < t.keys.len() implies in_range(
            #[trigger] t.keys[a],
            s.low,
            s.high,
        ) by {
            if a < i {
                assert(in_range(n.keys[a], s.low, s.high));
            } else if a > i {
                assert(in_range(n.keys[a - 1], s.low, s.high));
            }
        }
        assert forall|a: int| 0 <= a < t.children.len() implies (#[trigger] t.children[a]) != 0 by {
            lemma_split_child(m, m3, degree, s, room, i, separator, right, expected, a);
        }
    }
    assert(children_ok(m3, degree, t, s)) by {
        assert forall|j: int| 0 <= j < t.children.len() implies shape_with(
            m3,
            degree,
            #[trigger] child_slot(m3, t, s, j),
            (degree - 1) as nat,
        ) by {
            lemma_split_child_slot(m, m3, degree, s, room, i, separator, right, expected, j);
        }
        assert forall|j: int| 0 <= j < t.children.len() implies !(#[trigger] reach(
            m3,
            t.children[j],
            h,
        )).contains(s.offset) by {
            lemma_split_child(m, m3, degree, s, room, i, separator, right, expected, j);
        }
        assert forall|a: int, b: int| 0 <= a < b < t.children.len() implies (#[trigger] reach(
            m3,
            t.children[a],
            h,
        )).disjoint(#[trigger] reach(m3, t.children[b], h)) by {
            lemma_split_child(m, m3, degree, s, room, i, separator, right, expected, a);
            lemma_split_child(m, m3, degree, s, room, i, separator, right, expected, b);
            if origin(i, a) != origin(i, b) {
                lemma_children_apart(m, degree, s, room, origin(i, a), origin(i, b));
            }
        }
    }
    lemma_rebuild(m3, degree, s, room + 1, t);
    lemma_rebuilt_reach(m3, degree, s, t);
    lemma_split_child(m, m3, degree, s, room, i, separator, right, expected, 0);
    assert(contents(mv, s.offset, s.height) =~= whole) by {
        assert forall|k: K| contents(mv, s.offset, s.height).get(k) == whole.get(k) by {
            lemma_rebuilt_contents(m3, degree, s, t, k);
            lemma_route(n.keys, k);
            lemma_route(t.keys, k);
            lemma_route_insert(n.keys, i, separator, k);
            lemma_split_child(
                m,
                m3,
                degree,
                s,
                room,
                i,
                separator,
                right,
                expected,
                route(t.keys, k),
            );
            assert(expected.get(k) == if k.rank() < separator.rank() {
                contents(m3, c.offset, c.height).get(k)
            } else {
                contents(m3, right, c.height).get(k)
            });
        }
        assert forall|k: K| contents(mv, s.offset, s.height).dom().contains(k) == whole.dom().contains(
            k,
        ) by {
            assert(contents(mv, s.offset, s.height).get(k) == whole.get(k));
        }
        assert forall|k: K| contents(mv, s.offset, s.height).dom().contains(k) implies contents(
            mv,
            s.offset,
            s.height,
        )[k] == whole[k] by {
            assert(contents(mv, s.offset, s.height).get(k) == whole.get(k));
        }
    }
    assert forall|o: u64| #[trigger]
        reach(mv, s.offset, s.height).contains(o) implies reach(m, s.offset, s.height).contains(o)
        || !m.dom().contains(o) by {
        if o != s.offset {
            let j = choose|j: int|
                0 <= j < t.children.len() && reach(m3, #[trigger] t.children[j], h).contains(o);
            lemma_split_child(m, m3, degree, s, room, i, separator, right, expected, j);
        }
    }
    assert forall|o: u64|
        #![trigger m3[o]]
        #![trigger m3.dom().contains(o)]
        m.dom().contains(o) && !reach(m, s.offset, s.height).contains(o) implies m3.dom().contains(
            o,
        ) && m3[o] == m[o] by {
        lemma_reach_child(m, s.offset, s.height, i);
    }
}

/// The top node of a subtree that has taken in a change can stand at the top
/// of its slot, and with it there the subtree is well-formed.
pub proof fn lemma_put_top<K: Index, V: Value>(
    m: Heap<K, V>,
    m2: Heap<K, V>,
    degree: nat,
    s: Slot<K>,
    top: NodeView<K, V>,
    room: nat,
    expected: Map<K, V>,
)
    requires
        put_ok(m, m2, degree, s, top, room, expected),
    ensures
        top_ok(top, degree, s, room),
        shape_with(m2.insert(s.offset, top), degree, s, room),
        contents(m2.insert(s.offset, top), s.offset, s.height) == expected,
        m.dom().subset_of(m2.dom()),
{
    reveal(put_ok);
    lemma_shape_parts(m2.insert(s.offset, top), degree, s, room);
}

/// A well-formed leaf that is given an absent key within its bounds has
/// taken in the pair, by one key more.
pub proof fn lemma_leaf_put_ok<K: Index, V: Value>(
    m: Heap<K, V>,
    degree: nat,
    s: Slot<K>,
    room: nat,
    key: K,
    value: V,
)
    requires
        shape_with(m, degree, s, room),
        s.height == 0,
        in_range(key, s.low, s.high),
        !has_key(m[s.offset].keys, key),
    ensures
        put_ok(
            m,
            m,
            degree,
            s,
            leaf_with(m[s.offset], key, value),
            room + 1,
            contents(m, s.offset, 0).insert(key, value),
        ),
{
    reveal(put_ok);
    lemma_leaf_put(m, degree, s, room, key, value);
}

/// A well-formed leaf in which the key at index `i` is given another value
/// has taken in the change.
pub proof fn lemma_leaf_set_ok<K: Index, V: Value>(
    m: Heap<K, V>,
    degree: nat,
    s: Slot<K>,
    room: nat,
    i: int,
    value: V,
)
    requires
        shape_with(m, degree, s, room),
        s.height == 0,
        0 <= i < m[s.offset].keys.len(),
    ensures
        put_ok(
            m,
            m,
            degree,
            s,
            NodeView { values: m[s.offset].values.update(i, value), ..m[s.offset] },
            room,
            contents(m, s.offset, 0).insert(m[s.offset].keys[i], value),
        ),
        contents(m, s.offset, 0).contains_key(m[s.offset].keys[i]),
{
    reveal(put_ok);
    let n = m[s.offset];
    lemma_leaf_map_update(n.keys, n.values, i, value);
    lemma_sorted_position(n.keys, i);
}

/// Once the top node of a subtree that has taken in a change is written, and
/// it holds no more keys than there is room for, the subtree in the file has
/// taken in the change.
pub proof fn lemma_put_written<K: Index, V: Value>(
    m: Heap<K, V>,
    m2: Heap<K, V>,
    degree: nat,
    s: Slot<K>,
    top: NodeView<K, V>,
    wide: nat,
    room: nat,
    expected: Map<K, V>,
)
    requires
        put_ok(m, m2, degree, s, top, wide, expected),
        top.keys.len() <= room,
    ensures
        ({
            let m4 = m2.insert(s.offset, top);
            &&& m4.dom().contains(s.offset)
            &&& put_ok(m, m4, degree, s, m4[s.offset], room, expected)
        }),
{
    reveal(put_ok);
    let m4 = m2.insert(s.offset, top);
    assert(m4.insert(s.offset, m4[s.offset]) =~= m4);
    lemma_shape_parts(m4, degree, s, wide);
    lemma_shape_parts(m4, degree, s, room);
    lemma_reach_top(m, s.offset, s.height);
}

} // verus!
