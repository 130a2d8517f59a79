//! How the node above takes in a child that lacks keys: the child and a
//! neighbour are made one, or share out what they hold.

use vstd::prelude::*;
use crate::index::Index;
use crate::nodes::crud::{
    has_key, lemma_route, lemma_route_remove, lemma_route_update, lemma_sorted_position, route,
};
use crate::tree::divide::{
    divided, dividing, left_slot, lemma_children_apart, lemma_divided_contents,
    lemma_divided_left, lemma_divided_nodes, lemma_divided_right, right_slot,
};
use crate::tree::reparent::reparented;
use crate::nodes::io::Heap;
use crate::nodes::NodeView;
use crate::tree::absorb::{changed_in, lemma_sibling, put_ok};
use crate::tree::frame::{
    confined, lemma_frame, lemma_reach_child, lemma_reach_dom, lemma_reach_top, same_inside,
    same_outside,
};
use crate::tree::merge::{
    joined, joined_slot, joining, lemma_joined_contents, lemma_joined_nodes, lemma_joined_shape,
    lemma_loose_reach, merged,
};
use crate::tree::rebuild::{
    children_ok, enough, lemma_loose, lemma_rebuild, lemma_rebuild_loose, lemma_rebuilt_contents,
    lemma_rebuilt_reach, lemma_shape_parts, loose, top_loose, top_ok,
};
use crate::tree::reparent::lemma_child;
use crate::tree::relocate::{lemma_relocate, moved_top, relocated};
use crate::tree::shape::{
    child_slot, contents, in_range, leftmost, min_keys, reach, root_slot, shape, shape_with, Slot,
};
use crate::value::Value;

verus! {

/// Whether the subtree of slot `s` has taken in a change that may have left
/// its top node with fewer keys than the least.
///
/// As [`put_ok`], except that with `top` in its place the subtree is
/// well-formed but for the number of keys at its top.
#[verifier::opaque]
pub open spec fn took_ok<K: Index, V: Value>(
    m: Heap<K, V>,
    m2: Heap<K, V>,
    degree: nat,
    s: Slot<K>,
    top: NodeView<K, V>,
    room: nat,
    expected: Map<K, V>,
) -> bool {
    let mv = m2.insert(s.offset, top);
    &&& loose(mv, degree, s, room)
    &&& contents(mv, s.offset, s.height) == expected
    &&& leftmost(mv, s.offset, s.height) == leftmost(m, s.offset, s.height)
    &&& confined(m, reach(mv, s.offset, s.height), reach(m, s.offset, s.height))
    &&& same_outside(m, m2, reach(m, s.offset, s.height))
    &&& m.dom().subset_of(m2.dom())
}

/// A change that has left the top node with the least number of keys or
/// more has been taken in.
pub proof fn lemma_put_from_took<K: Index, V: Value>(
    m: Heap<K, V>,
    m2: Heap<K, V>,
    degree: nat,
    s: Slot<K>,
    top: NodeView<K, V>,
    room: nat,
    expected: Map<K, V>,
)
    requires
        took_ok(m, m2, degree, s, top, room, expected),
        enough(top, degree, s),
    ensures
        put_ok(m, m2, degree, s, top, room, expected),
{
    reveal(took_ok);
    reveal(put_ok);
    lemma_loose(m2.insert(s.offset, top), degree, s, room);
}

/// The top node of a subtree that has taken in a change can stand at the top
/// of its slot but for the number of its keys.
pub proof fn lemma_took_top<K: Index, V: Value>(
    m: Heap<K, V>,
    m2: Heap<K, V>,
    degree: nat,
    s: Slot<K>,
    top: NodeView<K, V>,
    room: nat,
    expected: Map<K, V>,
)
    requires
        took_ok(m, m2, degree, s, top, room, expected),
    ensures
        top_loose(top, degree, s, room),
        loose(m2.insert(s.offset, top), degree, s, room),
        contents(m2.insert(s.offset, top), s.offset, s.height) == expected,
        m.dom().subset_of(m2.dom()),
{
    reveal(took_ok);
}

/// A leaf without the pair at index `i`.
pub open spec fn leaf_without<K, V>(n: NodeView<K, V>, i: int) -> NodeView<K, V> {
    NodeView { keys: n.keys.remove(i), values: n.values.remove(i), ..n }
}

/// A well-formed leaf that gives up the pair at index `i` has taken in the
/// change, possibly with fewer keys than the least.
pub proof fn lemma_leaf_took<K: Index, V: Value>(
    m: Heap<K, V>,
    degree: nat,
    s: Slot<K>,
    room: nat,
    i: int,
)
    requires
        shape_with(m, degree, s, room),
        s.height == 0,
        0 <= i < m[s.offset].keys.len(),
    ensures
        took_ok(
            m,
            m,
            degree,
            s,
            leaf_without(m[s.offset], i),
            room,
            contents(m, s.offset, 0).remove(m[s.offset].keys[i]),
        ),
        contents(m, s.offset, 0).contains_key(m[s.offset].keys[i]),
{
    reveal(took_ok);
    let n = m[s.offset];
    let t = leaf_without(n, i);
    let mv = m.insert(s.offset, t);
    lemma_sorted_position(n.keys, i);
    assert forall|a: int, b: int| 0 <= a < b < t.keys.len() implies t.keys[a].rank()
        < t.keys[b].rank() by {
        let oa = if a < i { a } else { a + 1 };
        let ob = if b < i { b } else { b + 1 };
        assert(t.keys[a] == n.keys[oa] && t.keys[b] == n.keys[ob]);
    }
    assert forall|a: int| 0 <= a < t.keys.len() implies in_range(
        #[trigger] t.keys[a],
        s.low,
        s.high,
    ) by {
        let oa = if a < i { a } else { a + 1 };
        assert(t.keys[a] == n.keys[oa]);
        assert(in_range(n.keys[oa], s.low, s.high));
    }
    let before = crate::nodes::crud::leaf_map(n.keys, n.values);
    let after = crate::nodes::crud::leaf_map(t.keys, t.values);
    assert(after =~= before.remove(n.keys[i])) by {
        assert forall|k: K| after.dom().contains(k) <==> before.remove(n.keys[i]).dom().contains(
            k,
        ) by {
            if has_key(t.keys, k) {
                let p = crate::nodes::crud::position(t.keys, k);
                let op = if p < i { p } else { p + 1 };
                assert(n.keys[op] == k);
                if op < i {
                    assert(n.keys[op].rank() < n.keys[i].rank());
                } else {
                    assert(n.keys[i].rank() < n.keys[op].rank());
                }
            }
            if has_key(n.keys, k) && k != n.keys[i] {
                let p = crate::nodes::crud::position(n.keys, k);
                let np = if p < i { p } else { p - 1 };
                assert(t.keys[np] == k);
            }
        }
        assert forall|k: K| after.dom().contains(k) implies after[k] == before.remove(
            n.keys[i],
        )[k] by {
            let p = crate::nodes::crud::position(t.keys, k);
            lemma_sorted_position(t.keys, p);
            let op = if p < i { p } else { p + 1 };
            lemma_sorted_position(n.keys, op);
        }
    }
}

/// Whether child `i` of the top node of slot `s` has taken in a change to
/// `part` and stands in the file `mx`, possibly with fewer keys than the
/// least.
pub open spec fn child_took<K: Index, V: Value>(
    m: Heap<K, V>,
    mx: Heap<K, V>,
    degree: nat,
    s: Slot<K>,
    room: nat,
    i: int,
    part: Map<K, V>,
) -> bool {
    let n = m[s.offset];
    let c = child_slot(m, n, s, i);
    &&& shape_with(m, degree, s, room)
    &&& s.height > 0
    &&& degree >= 3
    &&& 0 <= i < n.children.len()
    &&& mx.dom().contains(c.offset)
    &&& took_ok(m, mx, degree, c, mx[c.offset], (degree - 1) as nat, part)
}

/// After a change inside child `i`, each child of the node is a subtree in
/// its slot: child `i` well-formed but for the number of keys at its top,
/// every other as it was.
pub proof fn lemma_took_child<K: Index, V: Value>(
    m: Heap<K, V>,
    mx: Heap<K, V>,
    degree: nat,
    s: Slot<K>,
    room: nat,
    i: int,
    part: Map<K, V>,
    j: int,
)
    requires
        child_took(m, mx, degree, s, room, i, part),
        0 <= j < m[s.offset].children.len(),
    ensures
        ({
            let n = m[s.offset];
            let h = (s.height - 1) as nat;
            let c = child_slot(m, n, s, j);
            &&& mx.dom().contains(s.offset)
            &&& mx[s.offset] == n
            &&& n.children.len() == n.keys.len() + 1
            &&& c.offset == n.children[j]
            &&& c.offset != 0
            &&& c.offset != s.offset
            &&& loose(mx, degree, c, (degree - 1) as nat)
            &&& j != i ==> shape_with(mx, degree, c, (degree - 1) as nat)
            &&& leftmost(mx, n.children[j], h) == leftmost(m, n.children[j], h)
            &&& confined(m, reach(mx, n.children[j], h), reach(m, n.children[j], h))
            &&& reach(mx, n.children[j], h).contains(n.children[j])
            &&& reach(mx, n.children[j], h).subset_of(mx.dom())
            &&& reach(m, n.children[j], h).subset_of(reach(m, s.offset, s.height))
            &&& reach(m, n.children[j], h).subset_of(m.dom())
            &&& !reach(m, n.children[j], h).contains(s.offset)
            &&& !reach(mx, n.children[j], h).contains(s.offset)
            &&& j != i ==> reach(mx, n.children[j], h) == reach(m, n.children[j], h) && contents(
                mx,
                n.children[j],
                h,
            ) == contents(m, n.children[j], h)
            &&& j == i ==> contents(mx, n.children[j], h) == part
            &&& same_outside(m, mx, reach(m, n.children[i], h))
            &&& m.dom().subset_of(mx.dom())
        }),
{
    reveal(took_ok);
    let n = m[s.offset];
    let h = (s.height - 1) as nat;
    let ci = child_slot(m, n, s, i);
    let c = child_slot(m, n, s, j);
    lemma_child(m, degree, s, room, i);
    lemma_child(m, degree, s, room, j);
    lemma_reach_top(m, s.offset, s.height);
    lemma_reach_child(m, s.offset, s.height, j);
    lemma_reach_dom(m, degree, c, (degree - 1) as nat);
    lemma_reach_dom(m, degree, ci, (degree - 1) as nat);
    assert(mx.insert(ci.offset, mx[ci.offset]) =~= mx);
    if j != i {
        lemma_sibling(m, mx, degree, s, room, i, j);
        lemma_loose(mx, degree, c, (degree - 1) as nat);
    }
    lemma_loose_reach(mx, degree, c, (degree - 1) as nat);
}

/// After a change inside one of two neighbouring children, the two can be
/// made one.
pub proof fn lemma_pair_ready<K: Index, V: Value>(
    m: Heap<K, V>,
    mx: Heap<K, V>,
    degree: nat,
    s: Slot<K>,
    room: nat,
    i: int,
    part: Map<K, V>,
    a: int,
)
    requires
        child_took(m, mx, degree, s, room, i, part),
        0 <= a,
        a + 1 < m[s.offset].children.len(),
        a == i || a + 1 == i,
    ensures
        joining(
            mx,
            degree,
            child_slot(m, m[s.offset], s, a),
            child_slot(m, m[s.offset], s, a + 1),
            m[s.offset].keys[a],
        ),
{
    let n = m[s.offset];
    let sl = child_slot(m, n, s, a);
    let sr = child_slot(m, n, s, a + 1);
    lemma_took_child(m, mx, degree, s, room, i, part, a);
    lemma_took_child(m, mx, degree, s, room, i, part, a + 1);
    crate::tree::divide::lemma_children_apart(m, degree, s, room, a, a + 1);
    lemma_shape_parts(m, degree, s, room);
    assert(in_range(n.keys[a], s.low, s.high));
    if a > 0 {
        assert(n.keys[a - 1].rank() < n.keys[a].rank());
    }
    if a + 1 < n.keys.len() {
        assert(n.keys[a].rank() < n.keys[a + 1].rank());
    }
    if s.height == 1 {
        if a == i {
            lemma_shape_parts(mx, degree, sr, (degree - 1) as nat);
        } else {
            lemma_shape_parts(mx, degree, sl, (degree - 1) as nat);
        }
    }
}

/// The node without the separator at index `a` and without the child to
/// the right of it.
pub open spec fn without<K, V>(n: NodeView<K, V>, a: int) -> NodeView<K, V> {
    NodeView { keys: n.keys.remove(a), children: n.children.remove(a + 1), ..n }
}

/// Whether the children `a` and `a + 1` of the top node of slot `s`, one of
/// them child `i`, which has taken in a change, are to be made one node that
/// fits a page.
pub open spec fn pairing<K: Index, V: Value>(
    m: Heap<K, V>,
    mx: Heap<K, V>,
    degree: nat,
    s: Slot<K>,
    room: nat,
    i: int,
    part: Map<K, V>,
    a: int,
) -> bool {
    &&& child_took(m, mx, degree, s, room, i, part)
    &&& 0 <= a
    &&& a + 1 < m[s.offset].children.len()
    &&& a == i || a + 1 == i
}

/// The one node that the children `a` and `a + 1` make.
pub open spec fn pair_node<K, V>(m: Heap<K, V>, mx: Heap<K, V>, s: Slot<K>, a: int) -> NodeView<
    K,
    V,
> {
    let n = m[s.offset];
    merged(mx[n.children[a]], n.keys[a], mx[n.children[a + 1]])
}

/// The file after the children `a` and `a + 1` were made one node.
pub open spec fn pair_joined<K, V>(m: Heap<K, V>, mx: Heap<K, V>, s: Slot<K>, a: int) -> Heap<K, V> {
    let n = m[s.offset];
    joined(mx, n.children[a], n.children[a + 1], n.keys[a])
}

/// After two neighbouring children were made one that fits a page, each
/// child of the node without their separator is a well-formed subtree.
pub proof fn lemma_join_child<K: Index, V: Value>(
    m: Heap<K, V>,
    mx: Heap<K, V>,
    degree: nat,
    s: Slot<K>,
    room: nat,
    i: int,
    part: Map<K, V>,
    a: int,
    j: int,
)
    requires
        pairing(m, mx, degree, s, room, i, part, a),
        pair_node(m, mx, s, a).keys.len() + 1 <= degree,
        0 <= j < m[s.offset].children.len() - 1,
    ensures
        ({
            let n = m[s.offset];
            let t = without(n, a);
            let h = (s.height - 1) as nat;
            let mj = pair_joined(m, mx, s, a);
            let o = if j <= a {
                j
            } else {
                j + 1
            };
            let sl = child_slot(m, n, s, a);
            let sr = child_slot(m, n, s, a + 1);
            &&& t.children[j] == n.children[o]
            &&& t.children[j] != 0
            &&& mj.dom() == mx.dom()
            &&& !reach(mj, t.children[j], h).contains(s.offset)
            &&& leftmost(mj, t.children[j], h) == leftmost(m, n.children[o], h)
            &&& j != a ==> shape_with(mj, degree, child_slot(m, n, s, o), (degree - 1) as nat)
                && reach(mj, t.children[j], h) == reach(m, n.children[o], h) && contents(
                mj,
                t.children[j],
                h,
            ) == contents(m, n.children[o], h)
            &&& j == a ==> shape_with(mj, degree, joined_slot(sl, sr), (degree - 1) as nat)
                && forall|x: u64|
                #[trigger] reach(mj, t.children[j], h).contains(x) ==> !m.dom().contains(x)
                    || reach(m, n.children[a], h).contains(x) || reach(
                    m,
                    n.children[a + 1],
                    h,
                ).contains(x)
        }),
{
    let n = m[s.offset];
    let t = without(n, a);
    let h = (s.height - 1) as nat;
    let mj = pair_joined(m, mx, s, a);
    let o = if j <= a {
        j
    } else {
        j + 1
    };
    let sl = child_slot(m, n, s, a);
    let sr = child_slot(m, n, s, a + 1);
    let sm = joined_slot(sl, sr);
    lemma_pair_ready(m, mx, degree, s, room, i, part, a);
    lemma_took_child(m, mx, degree, s, room, i, part, a);
    lemma_took_child(m, mx, degree, s, room, i, part, a + 1);
    lemma_took_child(m, mx, degree, s, room, i, part, o);
    lemma_joined_nodes(mx, degree, sl, sr, n.keys[a]);
    lemma_joined_shape(mx, degree, sl, sr, n.keys[a]);
    if j != a {
        let c = child_slot(m, n, s, o);
        lemma_children_apart(m, degree, s, room, o, a);
        lemma_children_apart(m, degree, s, room, o, a + 1);
        assert(same_inside(mx, mj, reach(mx, c.offset, h)));
        lemma_frame(mx, mj, degree, c, (degree - 1) as nat);
    } else {
        lemma_shape_parts(mj, degree, sm, pair_node(m, mx, s, a).keys.len());
        lemma_shape_parts(mj, degree, sm, (degree - 1) as nat);
    }
}

/// After two neighbouring children were made one that fits a page, the
/// subtree of the node above, without their separator, has taken in the
/// change.
pub proof fn lemma_absorb_join<K: Index, V: Value>(
    m: Heap<K, V>,
    mx: Heap<K, V>,
    degree: nat,
    s: Slot<K>,
    room: nat,
    i: int,
    part: Map<K, V>,
    whole: Map<K, V>,
    a: int,
)
    requires
        pairing(m, mx, degree, s, room, i, part, a),
        pair_node(m, mx, s, a).keys.len() + 1 <= degree,
        changed_in(m, s, i, part, whole),
    ensures
        pair_joined(m, mx, s, a).dom().contains(s.offset),
        took_ok(m, pair_joined(m, mx, s, a), degree, s, without(m[s.offset], a), room, whole),
{
    reveal(took_ok);
    let n = m[s.offset];
    let t = without(n, a);
    let h = (s.height - 1) as nat;
    let mj = pair_joined(m, mx, s, a);
    let mv = mj.insert(s.offset, t);
    let sl = child_slot(m, n, s, a);
    let sr = child_slot(m, n, s, a + 1);
    let sm = joined_slot(sl, sr);
    lemma_pair_ready(m, mx, degree, s, room, i, part, a);
    lemma_took_child(m, mx, degree, s, room, i, part, a);
    lemma_took_child(m, mx, degree, s, room, i, part, a + 1);
    lemma_joined_nodes(mx, degree, sl, sr, n.keys[a]);
    lemma_shape_parts(m, degree, s, room);
    lemma_route_remove(n.keys, a, n.keys[a]);
    lemma_join_child(m, mx, degree, s, room, i, part, a, 0);
    assert(top_loose(t, degree, s, room)) by {
        assert forall|b: int| 0 <= b < t.keys.len() implies in_range(
            #[trigger] t.keys[b],
            s.low,
            s.high,
        ) by {
            let ob = if b < a { b } else { b + 1 };
            assert(t.keys[b] == n.keys[ob]);
            assert(in_range(n.keys[ob], s.low, s.high));
        }
        assert forall|b: int| 0 <= b < t.children.len() implies (#[trigger] t.children[b]) != 0 by {
            lemma_join_child(m, mx, degree, s, room, i, part, a, b);
        }
    }
    assert(children_ok(mj, degree, t, s)) by {
        assert forall|j: int| 0 <= j < t.children.len() implies shape_with(
            mj,
            degree,
            #[trigger] child_slot(mj, t, s, j),
            (degree - 1) as nat,
        ) by {
            lemma_join_child(m, mx, degree, s, room, i, part, a, j);
            if j + 1 < t.children.len() {
                lemma_join_child(m, mx, degree, s, room, i, part, a, j + 1);
            }
            let o = if j <= a { j } else { j + 1 };
            if j == a {
                assert(child_slot(mj, t, s, j) == sm);
            } else {
                assert(child_slot(mj, t, s, j) == child_slot(m, n, s, o));
            }
        }
        assert forall|j: int| 0 <= j < t.children.len() implies !(#[trigger] reach(
            mj,
            t.children[j],
            h,
        )).contains(s.offset) by {
            lemma_join_child(m, mx, degree, s, room, i, part, a, j);
        }
        assert forall|b: int, c: int| 0 <= b < c < t.children.len() implies (#[trigger] reach(
            mj,
            t.children[b],
            h,
        )).disjoint(#[trigger] reach(mj, t.children[c], h)) by {
            lemma_join_child(m, mx, degree, s, room, i, part, a, b);
            lemma_join_child(m, mx, degree, s, room, i, part, a, c);
            let ob = if b <= a { b } else { b + 1 };
            let oc = if c <= a { c } else { c + 1 };
            lemma_took_child(m, mx, degree, s, room, i, part, ob);
            lemma_took_child(m, mx, degree, s, room, i, part, oc);
            lemma_children_apart(m, degree, s, room, ob, oc);
            if b == a {
                lemma_children_apart(m, degree, s, room, a + 1, oc);
            }
            if c == a {
                lemma_children_apart(m, degree, s, room, a + 1, ob);
            }
        }
    }
    lemma_rebuild_loose(mj, degree, s, room, t);
    lemma_rebuilt_reach(mj, degree, s, t);
    assert(contents(mv, s.offset, s.height) =~= whole) by {
        assert forall|k: K| contents(mv, s.offset, s.height).get(k) == whole.get(k) by {
            lemma_rebuilt_contents(mj, degree, s, t, k);
            lemma_route(n.keys, k);
            lemma_route(t.keys, k);
            lemma_route_remove(n.keys, a, k);
            lemma_join_child(m, mx, degree, s, room, i, part, a, route(t.keys, k));
            lemma_joined_contents(mx, degree, sl, sr, n.keys[a], k);
            lemma_took_child(m, mx, degree, s, room, i, part, route(n.keys, k));
        }
        assert forall|k: K| contents(mv, s.offset, s.height).dom().contains(k) == whole.dom().contains(
            k,
        ) by {
            assert(contents(mv, s.offset, s.height).get(k) == whole.get(k));
        }
        assert forall|k: K| contents(mv, s.offset, s.height).dom().contains(k) implies contents(
            mv,
            s.offset,
            s.height,
        )[k] == whole[k] by {
            assert(contents(mv, s.offset, s.height).get(k) == whole.get(k));
        }
    }
    assert forall|o: u64| #[trigger]
        reach(mv, s.offset, s.height).contains(o) implies reach(m, s.offset, s.height).contains(o)
        || !m.dom().contains(o) by {
        lemma_reach_top(m, s.offset, s.height);
        if o != s.offset {
            let j = choose|j: int|
                0 <= j < t.children.len() && reach(mj, #[trigger] t.children[j], h).contains(o);
            lemma_join_child(m, mx, degree, s, room, i, part, a, j);
            let oj = if j <= a { j } else { j + 1 };
            lemma_took_child(m, mx, degree, s, room, i, part, oj);
        }
    }
    assert forall|o: u64|
        #![trigger mj[o]]
        #![trigger mj.dom().contains(o)]
        m.dom().contains(o) && !reach(m, s.offset, s.height).contains(o) implies mj.dom().contains(
            o,
        ) && mj[o] == m[o] by {
        lemma_took_child(m, mx, degree, s, room, i, part, i);
        assert(mx.dom().contains(o) && mx[o] == m[o]);
    }
}

/// The node with another separator at index `a`.
pub open spec fn rotated<K, V>(n: NodeView<K, V>, a: int, separator: K) -> NodeView<K, V> {
    NodeView { keys: n.keys.update(a, separator), ..n }
}

/// Whether the children `a` and `a + 1` of the top node of slot `s`, one of
/// them child `i`, which has taken in a change, are to share out what they
/// hold: made one node and divided again at `mid`, so that each holds no
/// fewer and no more keys than a node may.
pub open spec fn rotating<K: Index, V: Value>(
    m: Heap<K, V>,
    mx: Heap<K, V>,
    degree: nat,
    s: Slot<K>,
    room: nat,
    i: int,
    part: Map<K, V>,
    a: int,
    mid: int,
) -> bool {
    let total = pair_node(m, mx, s, a).keys.len();
    &&& pairing(m, mx, degree, s, room, i, part, a)
    &&& degree % 2 == 1
    &&& if s.height == 1 {
        min_keys(degree) <= mid <= degree - 1 && min_keys(degree) <= total - mid <= degree - 1
    } else {
        1 <= mid <= degree - 1 && 1 <= total - mid - 1 <= degree - 1
    }
}

/// The file after the children `a` and `a + 1` have shared out what they
/// hold.
pub open spec fn pair_rotated<K, V>(
    m: Heap<K, V>,
    mx: Heap<K, V>,
    degree: nat,
    s: Slot<K>,
    a: int,
    mid: int,
) -> Heap<K, V> {
    let n = m[s.offset];
    let sl = child_slot(m, n, s, a);
    let sr = child_slot(m, n, s, a + 1);
    divided(
        reparented(mx, mx[sr.offset].children, sl.offset),
        degree,
        joined_slot(sl, sr),
        pair_node(m, mx, s, a),
        sr.offset,
        mid,
    )
}

/// Two neighbouring children that are to share out what they hold, made one
/// node, are ready to be divided.
pub proof fn lemma_rotate_ready<K: Index, V: Value>(
    m: Heap<K, V>,
    mx: Heap<K, V>,
    degree: nat,
    s: Slot<K>,
    room: nat,
    i: int,
    part: Map<K, V>,
    a: int,
    mid: int,
)
    requires
        rotating(m, mx, degree, s, room, i, part, a, mid),
    ensures
        ({
            let n = m[s.offset];
            let sl = child_slot(m, n, s, a);
            let sr = child_slot(m, n, s, a + 1);
            let x = reparented(mx, mx[sr.offset].children, sl.offset);
            &&& x.insert(sl.offset, pair_node(m, mx, s, a)) == pair_joined(m, mx, s, a)
            &&& dividing(x, degree, joined_slot(sl, sr), pair_node(m, mx, s, a), sr.offset, mid)
            &&& x.dom() == mx.dom()
        }),
{
    let n = m[s.offset];
    let sl = child_slot(m, n, s, a);
    let sr = child_slot(m, n, s, a + 1);
    let x = reparented(mx, mx[sr.offset].children, sl.offset);
    lemma_pair_ready(m, mx, degree, s, room, i, part, a);
    lemma_took_child(m, mx, degree, s, room, i, part, a);
    lemma_took_child(m, mx, degree, s, room, i, part, a + 1);
    lemma_joined_nodes(mx, degree, sl, sr, n.keys[a]);
    lemma_joined_shape(mx, degree, sl, sr, n.keys[a]);
    lemma_loose_reach(mx, degree, sr, (degree - 1) as nat);
    lemma_loose_reach(mx, degree, sl, (degree - 1) as nat);
    let mj = pair_joined(m, mx, s, a);
    assert(x.dom() =~= mx.dom()) by {
        assert(mj.dom() == mx.dom());
        assert(mj == x.insert(sl.offset, pair_node(m, mx, s, a)));
        assert forall|o: u64| x.dom().contains(o) implies mx.dom().contains(o) by {
            assert(mj.dom().contains(o));
        }
        assert forall|o: u64| mx.dom().contains(o) implies x.dom().contains(o) by {
            if o == sl.offset {
                crate::tree::reparent::lemma_reparented_keeps(
                    mx,
                    mx[sr.offset].children,
                    sl.offset,
                    o,
                );
            } else {
                assert(mj.dom().contains(o));
            }
        }
    }
}

/// After two neighbouring children have shared out what they hold, each
/// child of the node with the new separator is a well-formed subtree.
pub proof fn lemma_rotate_child<K: Index, V: Value>(
    m: Heap<K, V>,
    mx: Heap<K, V>,
    degree: nat,
    s: Slot<K>,
    room: nat,
    i: int,
    part: Map<K, V>,
    a: int,
    mid: int,
    j: int,
)
    requires
        rotating(m, mx, degree, s, room, i, part, a, mid),
        0 <= j < m[s.offset].children.len(),
    ensures
        ({
            let n = m[s.offset];
            let h = (s.height - 1) as nat;
            let m3 = pair_rotated(m, mx, degree, s, a, mid);
            let sl = child_slot(m, n, s, a);
            let sr = child_slot(m, n, s, a + 1);
            let sm = joined_slot(sl, sr);
            let separator = pair_node(m, mx, s, a).keys[mid];
            &&& n.children[j] != 0
            &&& m3.dom() == mx.dom()
            &&& !reach(m3, n.children[j], h).contains(s.offset)
            &&& in_range(separator, sm.low, sm.high)
            &&& sm.low matches Some(low) ==> low.rank() < separator.rank()
            &&& j != a + 1 ==> leftmost(m3, n.children[j], h) == leftmost(m, n.children[j], h)
            &&& j != a && j != a + 1 ==> shape_with(
                m3,
                degree,
                child_slot(m, n, s, j),
                (degree - 1) as nat,
            ) && reach(m3, n.children[j], h) == reach(m, n.children[j], h) && contents(
                m3,
                n.children[j],
                h,
            ) == contents(m, n.children[j], h)
            &&& j == a ==> shape_with(
                m3,
                degree,
                left_slot(m3, sm, separator, sr.offset),
                (degree - 1) as nat,
            )
            &&& j == a + 1 ==> shape_with(
                m3,
                degree,
                right_slot(sm, separator, sr.offset),
                (degree - 1) as nat,
            )
            &&& j == a || j == a + 1 ==> forall|x: u64|
                #[trigger] reach(m3, n.children[j], h).contains(x) ==> !m.dom().contains(x)
                    || reach(m, n.children[a], h).contains(x) || reach(
                    m,
                    n.children[a + 1],
                    h,
                ).contains(x)
            &&& reach(m3, n.children[a], h).disjoint(reach(m3, n.children[a + 1], h))
        }),
{
    let n = m[s.offset];
    let h = (s.height - 1) as nat;
    let m3 = pair_rotated(m, mx, degree, s, a, mid);
    let sl = child_slot(m, n, s, a);
    let sr = child_slot(m, n, s, a + 1);
    let sm = joined_slot(sl, sr);
    let t = pair_node(m, mx, s, a);
    let x = reparented(mx, mx[sr.offset].children, sl.offset);
    let mj = pair_joined(m, mx, s, a);
    lemma_rotate_ready(m, mx, degree, s, room, i, part, a, mid);
    lemma_pair_ready(m, mx, degree, s, room, i, part, a);
    lemma_took_child(m, mx, degree, s, room, i, part, a);
    lemma_took_child(m, mx, degree, s, room, i, part, a + 1);
    lemma_took_child(m, mx, degree, s, room, i, part, j);
    lemma_joined_nodes(mx, degree, sl, sr, n.keys[a]);
    lemma_joined_shape(mx, degree, sl, sr, n.keys[a]);
    lemma_divided_nodes(x, degree, sm, t, sr.offset, mid);
    lemma_divided_left(x, degree, sm, t, sr.offset, mid);
    lemma_divided_right(x, degree, sm, t, sr.offset, mid);
    assert(m3.dom() =~= mx.dom());
    if j != a && j != a + 1 {
        let c = child_slot(m, n, s, j);
        lemma_children_apart(m, degree, s, room, j, a);
        lemma_children_apart(m, degree, s, room, j, a + 1);
        assert forall|o: u64| reach(mx, c.offset, h).contains(o) implies m3.dom().contains(o)
            && #[trigger] m3[o] == mx[o] by {
            assert(mj[o] == mx[o]);
            assert(o != sl.offset);
            assert(x[o] == mj[o]);
        }
        assert(same_inside(mx, m3, reach(mx, c.offset, h)));
        lemma_frame(mx, m3, degree, c, (degree - 1) as nat);
    }
}

/// After two neighbouring children have shared out what they hold, the
/// subtree of the node above, with the new separator, has taken in the
/// change.
pub proof fn lemma_absorb_rotate<K: Index, V: Value>(
    m: Heap<K, V>,
    mx: Heap<K, V>,
    degree: nat,
    s: Slot<K>,
    room: nat,
    i: int,
    part: Map<K, V>,
    whole: Map<K, V>,
    a: int,
    mid: int,
)
    requires
        rotating(m, mx, degree, s, room, i, part, a, mid),
        changed_in(m, s, i, part, whole),
    ensures
        pair_rotated(m, mx, degree, s, a, mid).dom().contains(s.offset),
        put_ok(
            m,
            pair_rotated(m, mx, degree, s, a, mid),
            degree,
            s,
            rotated(m[s.offset], a, pair_node(m, mx, s, a).keys[mid]),
            room,
            whole,
        ),
{
    reveal(put_ok);
    let n = m[s.offset];
    let h = (s.height - 1) as nat;
    let m3 = pair_rotated(m, mx, degree, s, a, mid);
    let sl = child_slot(m, n, s, a);
    let sr = child_slot(m, n, s, a + 1);
    let sm = joined_slot(sl, sr);
    let over = pair_node(m, mx, s, a);
    let separator = over.keys[mid];
    let t = rotated(n, a, separator);
    let mv = m3.insert(s.offset, t);
    let x = reparented(mx, mx[sr.offset].children, sl.offset);
    lemma_rotate_ready(m, mx, degree, s, room, i, part, a, mid);
    lemma_rotate_child(m, mx, degree, s, room, i, part, a, mid, a);
    lemma_took_child(m, mx, degree, s, room, i, part, a);
    lemma_took_child(m, mx, degree, s, room, i, part, a + 1);
    lemma_shape_parts(m, degree, s, room);
    lemma_route_update(n.keys, a, separator, separator);
    assert(top_ok(t, degree, s, room)) by {
        assert(in_range(n.keys[a], s.low, s.high));
        assert forall|b: int| 0 <= b < t.keys.len() implies in_range(
            #[trigger] t.keys[b],
            s.low,
            s.high,
        ) by {
            if b != a {
                assert(in_range(n.keys[b], s.low, s.high));
            } else {
                if a > 0 {
                    assert(in_range(n.keys[a - 1], s.low, s.high));
                }
                if a + 1 < n.keys.len() {
                    assert(in_range(n.keys[a + 1], s.low, s.high));
                }
            }
        }
    }
    assert(children_ok(m3, degree, t, s)) by {
        assert forall|j: int| 0 <= j < t.children.len() implies shape_with(
            m3,
            degree,
            #[trigger] child_slot(m3, t, s, j),
            (degree - 1) as nat,
        ) by {
            lemma_rotate_child(m, mx, degree, s, room, i, part, a, mid, j);
            if j + 1 < t.children.len() {
                lemma_rotate_child(m, mx, degree, s, room, i, part, a, mid, j + 1);
            }
            if j == a {
                assert(child_slot(m3, t, s, j) == left_slot(m3, sm, separator, sr.offset));
            } else if j == a + 1 {
                assert(child_slot(m3, t, s, j) == right_slot(sm, separator, sr.offset));
            } else {
                assert(child_slot(m3, t, s, j) == child_slot(m, n, s, j));
            }
        }
        assert forall|j: int| 0 <= j < t.children.len() implies !(#[trigger] reach(
            m3,
            t.children[j],
            h,
        )).contains(s.offset) by {
            lemma_rotate_child(m, mx, degree, s, room, i, part, a, mid, j);
        }
        assert forall|b: int, c: int| 0 <= b < c < t.children.len() implies (#[trigger] reach(
            m3,
            t.children[b],
            h,
        )).disjoint(#[trigger] reach(m3, t.children[c], h)) by {
            lemma_rotate_child(m, mx, degree, s, room, i, part, a, mid, b);
            lemma_rotate_child(m, mx, degree, s, room, i, part, a, mid, c);
            lemma_took_child(m, mx, degree, s, room, i, part, b);
            lemma_took_child(m, mx, degree, s, room, i, part, c);
            lemma_children_apart(m, degree, s, room, b, c);
            if b != a {
                lemma_children_apart(m, degree, s, room, a, b);
            }
            if c != a {
                lemma_children_apart(m, degree, s, room, a, c);
            }
            if b != a + 1 {
                lemma_children_apart(m, degree, s, room, a + 1, b);
            }
            if c != a + 1 {
                lemma_children_apart(m, degree, s, room, a + 1, c);
            }
        }
    }
    lemma_rebuild(m3, degree, s, room, t);
    lemma_rebuilt_reach(m3, degree, s, t);
    lemma_rotate_child(m, mx, degree, s, room, i, part, a, mid, 0);
    assert(contents(mv, s.offset, s.height) =~= whole) by {
        assert forall|k: K| contents(mv, s.offset, s.height).get(k) == whole.get(k) by {
            lemma_rebuilt_contents(m3, degree, s, t, k);
            lemma_route(n.keys, k);
            lemma_route(t.keys, k);
            lemma_route_update(n.keys, a, separator, k);
            lemma_rotate_child(m, mx, degree, s, room, i, part, a, mid, route(t.keys, k));
            lemma_joined_contents(mx, degree, sl, sr, n.keys[a], k);
            lemma_divided_contents(x, degree, sm, over, sr.offset, mid, k);
            lemma_took_child(m, mx, degree, s, room, i, part, route(n.keys, k));
        }
        assert forall|k: K| contents(mv, s.offset, s.height).dom().contains(k) == whole.dom().contains(
            k,
        ) by {
            assert(contents(mv, s.offset, s.height).get(k) == whole.get(k));
        }
        assert forall|k: K| contents(mv, s.offset, s.height).dom().contains(k) implies contents(
            mv,
            s.offset,
            s.height,
        )[k] == whole[k] by {
            assert(contents(mv, s.offset, s.height).get(k) == whole.get(k));
        }
    }
    assert forall|o: u64| #[trigger]
        reach(mv, s.offset, s.height).contains(o) implies reach(m, s.offset, s.height).contains(o)
        || !m.dom().contains(o) by {
        lemma_reach_top(m, s.offset, s.height);
        if o != s.offset {
            let j = choose|j: int|
                0 <= j < t.children.len() && reach(m3, #[trigger] t.children[j], h).contains(o);
            lemma_rotate_child(m, mx, degree, s, room, i, part, a, mid, j);
            lemma_took_child(m, mx, degree, s, room, i, part, j);
        }
    }
    assert forall|o: u64|
        #![trigger m3[o]]
        #![trigger m3.dom().contains(o)]
        m.dom().contains(o) && !reach(m, s.offset, s.height).contains(o) implies m3.dom().contains(
            o,
        ) && m3[o] == m[o] by {
        lemma_took_child(m, mx, degree, s, room, i, part, i);
        assert(mx.dom().contains(o) && mx[o] == m[o]);
        lemma_joined_nodes(mx, degree, sl, sr, n.keys[a]);
        lemma_joined_shape(mx, degree, sl, sr, n.keys[a]);
        lemma_divided_nodes(x, degree, sm, over, sr.offset, mid);
        let mj = pair_joined(m, mx, s, a);
        assert(mj[o] == mx[o]);
        assert(x[o] == mj[o]);
    }
}

/// A change that has been taken in with the least number of keys or more at
/// the top has been taken in, whatever the number.
pub proof fn lemma_took_from_put<K: Index, V: Value>(
    m: Heap<K, V>,
    m2: Heap<K, V>,
    degree: nat,
    s: Slot<K>,
    top: NodeView<K, V>,
    room: nat,
    expected: Map<K, V>,
)
    requires
        put_ok(m, m2, degree, s, top, room, expected),
    ensures
        took_ok(m, m2, degree, s, top, room, expected),
        enough(top, degree, s),
{
    reveal(took_ok);
    reveal(put_ok);
    lemma_loose(m2.insert(s.offset, top), degree, s, room);
}

/// Once the top node of a subtree that has taken in a change is written, the
/// subtree in the file has taken in the change.
pub proof fn lemma_took_written<K: Index, V: Value>(
    m: Heap<K, V>,
    m2: Heap<K, V>,
    degree: nat,
    s: Slot<K>,
    top: NodeView<K, V>,
    room: nat,
    expected: Map<K, V>,
)
    requires
        took_ok(m, m2, degree, s, top, room, expected),
    ensures
        ({
            let m4 = m2.insert(s.offset, top);
            &&& m4.dom().contains(s.offset)
            &&& took_ok(m, m4, degree, s, m4[s.offset], room, expected)
        }),
{
    reveal(took_ok);
    let m4 = m2.insert(s.offset, top);
    assert(m4.insert(s.offset, m4[s.offset]) =~= m4);
    lemma_reach_top(m, s.offset, s.height);
}

/// A root that is left with one child and no key gives way to the child:
/// with the child copied to offset zero, and its children told, the file
/// holds a well-formed tree, one level lower, with what was expected.
pub proof fn lemma_collapse<K: Index, V: Value>(
    m: Heap<K, V>,
    m2: Heap<K, V>,
    degree: nat,
    height: nat,
    under: NodeView<K, V>,
    expected: Map<K, V>,
)
    requires
        took_ok(m, m2, degree, root_slot(height), under, (degree - 1) as nat, expected),
        height > 0,
        under.keys.len() == 0,
    ensures
        m2.dom().contains(under.children[0]),
        under.children[0] != 0,
        under.children.len() == 1,
        shape(relocated(m2, under.children[0], 0, 0), degree, root_slot((height - 1) as nat)),
        contents(relocated(m2, under.children[0], 0, 0), 0, (height - 1) as nat) == expected,
        relocated(m2, under.children[0], 0, 0)[0] == moved_top(m2[under.children[0]], 0, 0),
        forall|j: int|
            0 <= j < m2[under.children[0]].children.len() ==> m2.dom().contains(
                #[trigger] m2[under.children[0]].children[j],
            ) && m2[under.children[0]].children[j] != 0,
{
    reveal(took_ok);
    let s0 = root_slot::<K>(height);
    let mv = m2.insert(0, under);
    let c = child_slot(mv, under, s0, 0);
    let h = (height - 1) as nat;
    assert(shape_with(mv, degree, c, (degree - 1) as nat));
    assert(under.children[0] != 0);
    assert(!reach(mv, under.children[0], h).contains(0));
    lemma_reach_dom(mv, degree, c, (degree - 1) as nat);
    lemma_reach_top(mv, c.offset, h);
    assert(same_inside(mv, m2, reach(mv, c.offset, h)));
    lemma_frame(mv, m2, degree, c, (degree - 1) as nat);
    lemma_relocate(m2, degree, c, (degree - 1) as nat, 0, 0);
    crate::tree::relocate::lemma_relocated_outside(m2, degree, c, (degree - 1) as nat, 0, 0);
    let m3 = relocated(m2, c.offset, 0, 0);
    if h > 0 {
        assert forall|j: int| 0 <= j < m2[c.offset].children.len() implies m2.dom().contains(
            #[trigger] m2[c.offset].children[j],
        ) && m2[c.offset].children[j] != 0 by {
            lemma_child(m2, degree, c, (degree - 1) as nat, j);
            lemma_reach_dom(
                m2,
                degree,
                child_slot(m2, m2[c.offset], c, j),
                (degree - 1) as nat,
            );
            lemma_reach_top(m2, m2[c.offset].children[j], (h - 1) as nat);
        }
    } else {
        lemma_shape_parts(m2, degree, c, (degree - 1) as nat);
    }
    assert(Slot { offset: 0, parent: 0, ..c } == root_slot::<K>(h));
    assert(contents(mv, 0, height) =~= contents(mv, c.offset, h)) by {
        assert forall|k: K| route(under.keys, k) == 0 by {
            lemma_route(under.keys, k);
        }
    }
}

/// After two neighbouring children were made one, the subtree of the node
/// above does not reach the place of the right one any more.
pub proof fn lemma_join_orphan<K: Index, V: Value>(
    m: Heap<K, V>,
    mx: Heap<K, V>,
    degree: nat,
    s: Slot<K>,
    room: nat,
    i: int,
    part: Map<K, V>,
    a: int,
)
    requires
        pairing(m, mx, degree, s, room, i, part, a),
        pair_node(m, mx, s, a).keys.len() + 1 <= degree,
    ensures
        !reach(
            pair_joined(m, mx, s, a).insert(s.offset, without(m[s.offset], a)),
            s.offset,
            s.height,
        ).contains(m[s.offset].children[a + 1]),
        m[s.offset].children[a + 1] != m[s.offset].children[a],
        m[s.offset].children[a + 1] != s.offset,
        pair_joined(m, mx, s, a).dom() == mx.dom(),
        mx.dom().contains(m[s.offset].children[a + 1]),
{
    let n = m[s.offset];
    let t = without(n, a);
    let h = (s.height - 1) as nat;
    let mj = pair_joined(m, mx, s, a);
    let orphan = n.children[a + 1];
    let sl = child_slot(m, n, s, a);
    let sr = child_slot(m, n, s, a + 1);
    lemma_pair_ready(m, mx, degree, s, room, i, part, a);
    lemma_took_child(m, mx, degree, s, room, i, part, a);
    lemma_took_child(m, mx, degree, s, room, i, part, a + 1);
    lemma_joined_nodes(mx, degree, sl, sr, n.keys[a]);
    lemma_joined_shape(mx, degree, sl, sr, n.keys[a]);
    lemma_reach_top(m, orphan, h);
    lemma_join_child(m, mx, degree, s, room, i, part, a, 0);
    assert(children_ok(mj, degree, t, s)) by {
        assert forall|j: int| 0 <= j < t.children.len() implies shape_with(
            mj,
            degree,
            #[trigger] child_slot(mj, t, s, j),
            (degree - 1) as nat,
        ) by {
            lemma_join_child(m, mx, degree, s, room, i, part, a, j);
            if j + 1 < t.children.len() {
                lemma_join_child(m, mx, degree, s, room, i, part, a, j + 1);
            }
            let o = if j <= a { j } else { j + 1 };
            if j == a {
                assert(child_slot(mj, t, s, j) == joined_slot(sl, sr));
            } else {
                assert(child_slot(mj, t, s, j) == child_slot(m, n, s, o));
            }
        }
        assert forall|j: int| 0 <= j < t.children.len() implies !(#[trigger] reach(
            mj,
            t.children[j],
            h,
        )).contains(s.offset) by {
            lemma_join_child(m, mx, degree, s, room, i, part, a, j);
        }
        assert forall|b: int, c: int| 0 <= b < c < t.children.len() implies (#[trigger] reach(
            mj,
            t.children[b],
            h,
        )).disjoint(#[trigger] reach(mj, t.children[c], h)) by {
            lemma_join_child(m, mx, degree, s, room, i, part, a, b);
            lemma_join_child(m, mx, degree, s, room, i, part, a, c);
            let ob = if b <= a { b } else { b + 1 };
            let oc = if c <= a { c } else { c + 1 };
            lemma_took_child(m, mx, degree, s, room, i, part, ob);
            lemma_took_child(m, mx, degree, s, room, i, part, oc);
            lemma_children_apart(m, degree, s, room, ob, oc);
            if b == a {
                lemma_children_apart(m, degree, s, room, a + 1, oc);
            }
            if c == a {
                lemma_children_apart(m, degree, s, room, a + 1, ob);
            }
        }
    }
    lemma_rebuilt_reach(mj, degree, s, t);
    if reach(mj.insert(s.offset, t), s.offset, s.height).contains(orphan) {
        let j = choose|j: int|
            0 <= j < t.children.len() && reach(mj, #[trigger] t.children[j], h).contains(orphan);
        lemma_join_child(m, mx, degree, s, room, i, part, a, j);
        let oj = if j <= a { j } else { j + 1 };
        lemma_took_child(m, mx, degree, s, room, i, part, oj);
        if j != a {
            lemma_children_apart(m, degree, s, room, oj, a + 1);
        } else {
            lemma_children_apart(m, degree, s, room, a, a + 1);
            lemma_loose_reach(mx, degree, sr, (degree - 1) as nat);
        }
    }
}

/// A subtree that has taken in a change has done so whatever stands at an
/// offset that it reached before the change and does not reach any more.
pub proof fn lemma_took_without<K: Index, V: Value>(
    m: Heap<K, V>,
    ma: Heap<K, V>,
    mb: Heap<K, V>,
    degree: nat,
    s: Slot<K>,
    top: NodeView<K, V>,
    room: nat,
    expected: Map<K, V>,
    orphan: u64,
)
    requires
        took_ok(m, ma, degree, s, top, room, expected),
        mb.dom() == ma.dom(),
        forall|o: u64| o != orphan && ma.dom().contains(o) ==> #[trigger] mb[o] == ma[o],
        reach(m, s.offset, s.height).contains(orphan),
        !reach(ma.insert(s.offset, top), s.offset, s.height).contains(orphan),
    ensures
        took_ok(m, mb, degree, s, top, room, expected),
{
    reveal(took_ok);
    let mva = ma.insert(s.offset, top);
    let mvb = mb.insert(s.offset, top);
    lemma_reach_top(mva, s.offset, s.height);
    if s.height > 0 {
        let h = (s.height - 1) as nat;
        assert forall|j: int| 0 <= j < top.children.len() implies shape_with(
            mvb,
            degree,
            child_slot(mva, top, s, j),
            (degree - 1) as nat,
        ) && reach(mvb, #[trigger] top.children[j], h) == reach(mva, top.children[j], h)
            && leftmost(mvb, top.children[j], h) == leftmost(mva, top.children[j], h) && contents(
            mvb,
            top.children[j],
            h,
        ) == contents(mva, top.children[j], h) by {
            let c = child_slot(mva, top, s, j);
            assert(shape_with(mva, degree, c, (degree - 1) as nat));
            lemma_reach_child(mva, s.offset, s.height, j);
            lemma_reach_dom(mva, degree, c, (degree - 1) as nat);
            assert(same_inside(mva, mvb, reach(mva, c.offset, h)));
            lemma_frame(mva, mvb, degree, c, (degree - 1) as nat);
        }
        assert(children_ok(mvb, degree, top, s)) by {
            assert forall|j: int| 0 <= j < top.children.len() implies shape_with(
                mvb,
                degree,
                #[trigger] child_slot(mvb, top, s, j),
                (degree - 1) as nat,
            ) by {
                assert(top.children[j] == top.children[j]);
                if j + 1 < top.children.len() {
                    assert(top.children[j + 1] == top.children[j + 1]);
                }
                assert(child_slot(mvb, top, s, j) == child_slot(mva, top, s, j));
            }
            assert forall|j: int| 0 <= j < top.children.len() implies !(#[trigger] reach(
                mvb,
                top.children[j],
                h,
            )).contains(s.offset) by {
                assert(!reach(mva, top.children[j], h).contains(s.offset));
            }
            assert forall|a: int, b: int| 0 <= a < b < top.children.len() implies (#[trigger] reach(
                mvb,
                top.children[a],
                h,
            )).disjoint(#[trigger] reach(mvb, top.children[b], h)) by {
                assert(reach(mva, top.children[a], h).disjoint(reach(mva, top.children[b], h)));
            }
        }
        assert(reach(mvb, s.offset, s.height) =~= reach(mva, s.offset, s.height));
        assert(top.children[0] == top.children[0]);
        assert(contents(mvb, s.offset, s.height) =~= contents(mva, s.offset, s.height)) by {
            assert forall|k: K|
                contents(mvb, top.children[route(top.keys, k)], h) == contents(
                    mva,
                    top.children[route(top.keys, k)],
                    h,
                ) by {
                lemma_route(top.keys, k);
                assert(top.children[route(top.keys, k)] == top.children[route(top.keys, k)]);
            }
        }
    }
    assert forall|o: u64|
        #![trigger mb[o]]
        #![trigger mb.dom().contains(o)]
        m.dom().contains(o) && !reach(m, s.offset, s.height).contains(o) implies mb.dom().contains(
            o,
        ) && mb[o] == m[o] by {
        assert(ma.dom().contains(o) && ma[o] == m[o]);
    }
}

} // verus!
