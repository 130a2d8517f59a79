//! Copying a node to another offset, and dividing the root.

use vstd::prelude::*;
use crate::index::Index;
use crate::node_type::NodeType;
use crate::nodes::crud::{is_route, lemma_route, route};
use crate::nodes::io::Heap;
use crate::nodes::NodeView;
use crate::tree::absorb::{lemma_put_top, put_ok};
use crate::tree::divide::{
    divided, dividing, left_half, left_slot, lemma_children_apart, lemma_divided_contents,
    lemma_divided_left, lemma_divided_nodes, lemma_divided_right, right_half, right_slot,
};
use crate::tree::frame::{
    lemma_frame, lemma_reach_child, lemma_reach_dom, lemma_reach_top, same_inside,
};
use crate::tree::rebuild::{
    children_ok, lemma_rebuild, lemma_rebuilt_contents, lemma_rebuilt_reach, lemma_shape_parts,
};
use crate::tree::reparent::{
    all_shaped, apart, lemma_child, lemma_reparented, lemma_reparented_skip, reparented, tops,
};
use crate::tree::shape::{
    child_slot, contents, leftmost, min_keys, reach, root_slot, shape, shape_with, Slot,
};
use crate::value::Value;

verus! {

/// The node as it stands at another offset under another parent. It is the
/// root exactly if it stands at offset zero.
pub open spec fn moved_top<K, V>(n: NodeView<K, V>, to: u64, parent: u64) -> NodeView<K, V> {
    NodeView { offset: to, is_root: to == 0, parent_offset: parent, ..n }
}

/// The file after the node at `from` was copied to `to`, under `parent`,
/// and its children were told of their parent's new place.
pub open spec fn relocated<K, V>(m: Heap<K, V>, from: u64, to: u64, parent: u64) -> Heap<K, V> {
    let t = moved_top(m[from], to, parent);
    reparented(m.insert(to, t), t.children, to)
}

/// The slots of all children of the top node of slot `c`.
pub open spec fn child_slots<K, V>(m: Heap<K, V>, c: Slot<K>) -> Seq<Slot<K>> {
    Seq::new(m[c.offset].children.len(), |j: int| child_slot(m, m[c.offset], c, j))
}

/// Once the copy of the top node stands at the new offset, each child is
/// still the well-formed subtree that it was.
pub proof fn lemma_relocated_first<K: Index, V: Value>(
    m: Heap<K, V>,
    degree: nat,
    c: Slot<K>,
    room: nat,
    to: u64,
    parent: u64,
    j: int,
)
    requires
        shape_with(m, degree, c, room),
        !reach(m, c.offset, c.height).contains(to),
        c.height > 0,
        0 <= j < m[c.offset].children.len(),
    ensures
        ({
            let n = m[c.offset];
            let ma = m.insert(to, moved_top(n, to, parent));
            let cj = child_slot(m, n, c, j);
            let h = (c.height - 1) as nat;
            &&& cj.offset == n.children[j]
            &&& cj.height == h
            &&& n.children[j] != to
            &&& n.children[j] != 0
            &&& shape_with(ma, degree, cj, (degree - 1) as nat)
            &&& reach(ma, n.children[j], h) == reach(m, n.children[j], h)
            &&& leftmost(ma, n.children[j], h) == leftmost(m, n.children[j], h)
            &&& contents(ma, n.children[j], h) == contents(m, n.children[j], h)
            &&& reach(m, n.children[j], h).contains(n.children[j])
            &&& !reach(m, n.children[j], h).contains(to)
            &&& !reach(m, n.children[j], h).contains(c.offset)
            &&& reach(m, n.children[j], h).subset_of(reach(m, c.offset, c.height))
            &&& reach(m, n.children[j], h).subset_of(m.dom())
        }),
{
    let n = m[c.offset];
    let ma = m.insert(to, moved_top(n, to, parent));
    let cj = child_slot(m, n, c, j);
    let h = (c.height - 1) as nat;
    lemma_child(m, degree, c, room, j);
    lemma_reach_child(m, c.offset, c.height, j);
    lemma_reach_dom(m, degree, cj, (degree - 1) as nat);
    lemma_reach_top(m, n.children[j], h);
    assert(same_inside(m, ma, reach(m, cj.offset, cj.height)));
    lemma_frame(m, ma, degree, cj, (degree - 1) as nat);
}

/// Once the copy of the top node stands at the new offset, the children are
/// well-formed subtrees that share no node.
pub proof fn lemma_relocated_setup<K: Index, V: Value>(
    m: Heap<K, V>,
    degree: nat,
    c: Slot<K>,
    room: nat,
    to: u64,
    parent: u64,
)
    requires
        shape_with(m, degree, c, room),
        !reach(m, c.offset, c.height).contains(to),
        c.height > 0,
    ensures
        ({
            let n = m[c.offset];
            let ma = m.insert(to, moved_top(n, to, parent));
            let slots = child_slots(m, c);
            &&& tops(slots) == n.children
            &&& all_shaped(ma, degree, slots)
            &&& apart(ma, slots)
        }),
{
    let n = m[c.offset];
    let ma = m.insert(to, moved_top(n, to, parent));
    let slots = child_slots(m, c);
    let h = (c.height - 1) as nat;
    assert(tops(slots) =~= n.children);
    assert forall|a: int| 0 <= a < slots.len() implies shape_with(
        ma,
        degree,
        #[trigger] slots[a],
        (degree - 1) as nat,
    ) by {
        lemma_relocated_first(m, degree, c, room, to, parent, a);
    }
    assert forall|a: int, b: int| 0 <= a < b < slots.len() implies (#[trigger] reach(
        ma,
        slots[a].offset,
        slots[a].height,
    )).disjoint(#[trigger] reach(ma, slots[b].offset, slots[b].height)) by {
        lemma_relocated_first(m, degree, c, room, to, parent, a);
        lemma_relocated_first(m, degree, c, room, to, parent, b);
        lemma_children_apart(m, degree, c, room, a, b);
    }
}

/// Copying the top node of a well-formed subtree to an offset that the
/// subtree does not reach changes no node other than the copy and the
/// children that are told of it.
pub proof fn lemma_relocated_outside<K: Index, V: Value>(
    m: Heap<K, V>,
    degree: nat,
    c: Slot<K>,
    room: nat,
    to: u64,
    parent: u64,
)
    requires
        shape_with(m, degree, c, room),
        !reach(m, c.offset, c.height).contains(to),
    ensures
        ({
            let m2 = relocated(m, c.offset, to, parent);
            &&& m2.dom() == m.dom().insert(to)
            &&& m2[to] == moved_top(m[c.offset], to, parent)
            &&& forall|o: u64|
                m.dom().contains(o) && o != to && !reach(m, c.offset, c.height).contains(o)
                    ==> #[trigger] m2[o] == m[o]
        }),
{
    let n = m[c.offset];
    let t = moved_top(n, to, parent);
    let ma = m.insert(to, t);
    let m2 = relocated(m, c.offset, to, parent);
    let slots = child_slots(m, c);
    lemma_shape_parts(m, degree, c, room);
    if c.height == 0 {
        assert(t.children =~= Seq::<u64>::empty());
        assert(m2 == ma);
    } else {
        lemma_relocated_setup(m, degree, c, room, to, parent);
        lemma_reparented(ma, degree, slots, to);
        assert forall|o: u64| tops(slots).contains(o) implies reach(m, c.offset, c.height).contains(
            o,
        ) by {
            let a = choose|a: int| 0 <= a < tops(slots).len() && tops(slots)[a] == o;
            lemma_relocated_first(m, degree, c, room, to, parent, a);
        }
        assert(ma.dom().contains(to));
        assert(!tops(slots).contains(to));
        assert forall|o: u64|
            m.dom().contains(o) && o != to && !reach(m, c.offset, c.height).contains(
                o,
            ) implies #[trigger] m2[o] == m[o] by {
            assert(ma.dom().contains(o));
            assert(!tops(slots).contains(o));
        }
    }
    assert(m2.dom() =~= m.dom().insert(to));
}

/// Copying the top node of a well-formed subtree to an offset that the
/// subtree does not reach leaves each child a well-formed subtree under the
/// new place, with the nodes, the first leaf and the contents that it had.
pub proof fn lemma_relocated_child<K: Index, V: Value>(
    m: Heap<K, V>,
    degree: nat,
    c: Slot<K>,
    room: nat,
    to: u64,
    parent: u64,
    j: int,
)
    requires
        shape_with(m, degree, c, room),
        !reach(m, c.offset, c.height).contains(to),
        c.height > 0,
        0 <= j < m[c.offset].children.len(),
    ensures
        ({
            let m2 = relocated(m, c.offset, to, parent);
            let n = m[c.offset];
            let cj = child_slot(m, n, c, j);
            let h = (c.height - 1) as nat;
            &&& n.children[j] != to
            &&& n.children[j] != 0
            &&& shape_with(m2, degree, Slot { parent: to, ..cj }, (degree - 1) as nat)
            &&& reach(m2, n.children[j], h) == reach(m, n.children[j], h)
            &&& leftmost(m2, n.children[j], h) == leftmost(m, n.children[j], h)
            &&& contents(m2, n.children[j], h) == contents(m, n.children[j], h)
            &&& !reach(m, n.children[j], h).contains(to)
            &&& !reach(m, n.children[j], h).contains(c.offset)
            &&& reach(m, n.children[j], h).subset_of(reach(m, c.offset, c.height))
        }),
{
    let n = m[c.offset];
    let ma = m.insert(to, moved_top(n, to, parent));
    let slots = child_slots(m, c);
    lemma_relocated_setup(m, degree, c, room, to, parent);
    lemma_reparented(ma, degree, slots, to);
    lemma_relocated_first(m, degree, c, room, to, parent, j);
    assert(slots[j] == child_slot(m, n, c, j));
}

/// Copying the top node of a well-formed subtree to an offset that the
/// subtree does not reach, and telling the children, gives the same subtree
/// at the new offset.
pub proof fn lemma_relocate<K: Index, V: Value>(
    m: Heap<K, V>,
    degree: nat,
    c: Slot<K>,
    room: nat,
    to: u64,
    parent: u64,
)
    requires
        shape_with(m, degree, c, room),
        !reach(m, c.offset, c.height).contains(to),
        c.height == 0 && to != 0 ==> m[c.offset].keys.len() >= min_keys(degree),
    ensures
        ({
            let m2 = relocated(m, c.offset, to, parent);
            &&& shape_with(m2, degree, Slot { offset: to, parent, ..c }, room)
            &&& contents(m2, to, c.height) == contents(m, c.offset, c.height)
            &&& leftmost(m2, to, c.height) == if c.height == 0 {
                to
            } else {
                leftmost(m, c.offset, c.height)
            }
            &&& m2.dom() == m.dom().insert(to)
            &&& forall|o: u64|
                #[trigger] reach(m2, to, c.height).contains(o) ==> o == to || (reach(
                    m,
                    c.offset,
                    c.height,
                ).contains(o) && o != c.offset)
            &&& forall|o: u64|
                m.dom().contains(o) && o != to && !reach(m, c.offset, c.height).contains(o)
                    ==> #[trigger] m2[o] == m[o]
        }),
{
    let n = m[c.offset];
    let t = moved_top(n, to, parent);
    let m2 = relocated(m, c.offset, to, parent);
    let c2 = Slot { offset: to, parent, ..c };
    lemma_shape_parts(m, degree, c, room);
    lemma_reach_top(m, c.offset, c.height);
    lemma_relocated_outside(m, degree, c, room, to, parent);
    if c.height == 0 {
        assert(t.children =~= Seq::<u64>::empty());
        assert(m2 == m.insert(to, t));
    } else {
        let h = (c.height - 1) as nat;
        lemma_relocated_child(m, degree, c, room, to, parent, 0);
        assert(children_ok(m2, degree, t, c2)) by {
            assert forall|j: int| 0 <= j < t.children.len() implies shape_with(
                m2,
                degree,
                #[trigger] child_slot(m2, t, c2, j),
                (degree - 1) as nat,
            ) by {
                lemma_relocated_child(m, degree, c, room, to, parent, j);
                if j + 1 < t.children.len() {
                    lemma_relocated_child(m, degree, c, room, to, parent, j + 1);
                }
                assert(child_slot(m2, t, c2, j) == Slot { parent: to, ..child_slot(m, n, c, j) });
            }
            assert forall|j: int| 0 <= j < t.children.len() implies !(#[trigger] reach(
                m2,
                t.children[j],
                h,
            )).contains(c2.offset) by {
                lemma_relocated_child(m, degree, c, room, to, parent, j);
            }
            assert forall|a: int, b: int| 0 <= a < b < t.children.len() implies (#[trigger] reach(
                m2,
                t.children[a],
                h,
            )).disjoint(#[trigger] reach(m2, t.children[b], h)) by {
                lemma_relocated_child(m, degree, c, room, to, parent, a);
                lemma_relocated_child(m, degree, c, room, to, parent, b);
                lemma_children_apart(m, degree, c, room, a, b);
            }
        }
        assert(m2.insert(to, t) =~= m2);
        lemma_rebuild(m2, degree, c2, room, t);
        lemma_rebuilt_reach(m2, degree, c2, t);
        assert(contents(m2, to, c.height) =~= contents(m, c.offset, c.height)) by {
            assert forall|k: K|
                contents(m2, t.children[route(t.keys, k)], h) == contents(
                    m,
                    n.children[route(n.keys, k)],
                    h,
                ) by {
                lemma_route(n.keys, k);
                lemma_relocated_child(m, degree, c, room, to, parent, route(n.keys, k));
            }
        }
        assert forall|o: u64| #[trigger] reach(m2, to, c.height).contains(o) implies o == to || (
        reach(m, c.offset, c.height).contains(o) && o != c.offset) by {
            if o != to {
                let j = choose|j: int|
                    0 <= j < t.children.len() && reach(m2, #[trigger] t.children[j], h).contains(o);
                lemma_relocated_child(m, degree, c, room, to, parent, j);
            }
        }
    }
}

/// The root of a tree that has grown by a level: an internal node at offset
/// zero with one key and the two halves of the old root as its children.
pub open spec fn new_root<K, V>(separator: K, left: u64, right: u64) -> NodeView<K, V> {
    NodeView {
        node_type: NodeType::Internal,
        is_root: true,
        parent_offset: 0,
        offset: 0,
        keys: seq![separator],
        values: Seq::empty(),
        children: seq![left, right],
    }
}

/// The file after the overfull root `over` was divided: the right half
/// stands at `right` and the left half at `left`, each as the parent of its
/// children, and the new root stands at offset zero above them.
pub open spec fn grown<K, V>(
    m: Heap<K, V>,
    degree: nat,
    over: NodeView<K, V>,
    left: u64,
    right: u64,
) -> Heap<K, V> {
    let mid = (degree / 2) as int;
    let r = right_half(over, mid, right);
    let l = moved_top(left_half(over, mid, right), left, 0);
    let mb = reparented(m.insert(right, r), r.children, right);
    reparented(mb.insert(left, l), l.children, left).insert(
        0,
        new_root(over.keys[mid], left, right),
    )
}

/// Dividing the overfull root into two new nodes under a new root at offset
/// zero comes to the same as dividing it where it stands, copying the left
/// half to its new offset and writing the new root over it.
pub proof fn lemma_grown_by_steps<K: Index, V: Value>(
    m: Heap<K, V>,
    degree: nat,
    height: nat,
    over: NodeView<K, V>,
    left: u64,
    right: u64,
)
    requires
        dividing(m, degree, root_slot(height), over, right, (degree / 2) as int),
        !m.dom().contains(right),
        left != 0,
        left != right,
        !m.dom().contains(left),
    ensures
        grown(m, degree, over, left, right) == relocated(
            divided(m, degree, root_slot(height), over, right, (degree / 2) as int),
            0,
            left,
            0,
        ).insert(0, new_root(over.keys[(degree / 2) as int], left, right)),
{
    let s0 = root_slot::<K>(height);
    let mid = (degree / 2) as int;
    let r = right_half(over, mid, right);
    let lh = left_half(over, mid, right);
    let l = moved_top(lh, left, 0);
    let mb = reparented(m.insert(right, r), r.children, right);
    let m3v = divided(m, degree, s0, over, right, mid);
    let root = new_root::<K, V>(over.keys[mid], left, right);
    lemma_divided_nodes(m, degree, s0, over, right, mid);
    assert(m3v == mb.insert(0, lh));
    assert(m3v[0] == lh);
    assert(mb.insert(0, lh).insert(left, l) =~= mb.insert(left, l).insert(0, lh));
    assert(!l.children.contains(0)) by {
        if l.children.contains(0) {
            let j = choose|j: int| 0 <= j < l.children.len() && l.children[j] == 0;
            lemma_shape_parts(m.insert(0, over), degree, s0, degree);
            assert(over.children[j] != 0);
        }
    }
    lemma_reparented_skip(mb.insert(left, l), 0, lh, l.children, left);
    let base = reparented(mb.insert(left, l), l.children, left);
    assert(base.insert(0, lh).insert(0, root) =~= base.insert(0, root));
}

/// Dividing the overfull root of a tree that has taken in a change gives a
/// well-formed tree, one level higher, that holds what was expected.
pub proof fn lemma_root_split<K: Index, V: Value>(
    m: Heap<K, V>,
    m2: Heap<K, V>,
    degree: nat,
    height: nat,
    over: NodeView<K, V>,
    left: u64,
    right: u64,
    expected: Map<K, V>,
)
    requires
        put_ok(m, m2, degree, root_slot(height), over, degree, expected),
        degree >= 3,
        degree % 2 == 1,
        over.keys.len() == degree,
        left != 0,
        right != 0,
        left != right,
        !m2.dom().contains(left),
        !m2.dom().contains(right),
    ensures
        shape(grown(m2, degree, over, left, right), degree, root_slot(height + 1)),
        contents(grown(m2, degree, over, left, right), 0, height + 1) == expected,
{
    let s0 = root_slot::<K>(height);
    let s1 = root_slot::<K>(height + 1);
    let mid = (degree / 2) as int;
    let separator = over.keys[mid];
    let mv = m2.insert(0, over);
    let m3v = divided(m2, degree, s0, over, right, mid);
    let m4 = relocated(m3v, 0, left, 0);
    let root = new_root::<K, V>(separator, left, right);
    let m5 = m4.insert(0, root);
    lemma_put_top(m, m2, degree, s0, over, degree, expected);
    lemma_reach_dom(mv, degree, s0, degree);
    assert(dividing(m2, degree, s0, over, right, mid));
    lemma_grown_by_steps(m2, degree, height, over, left, right);
    lemma_divided_nodes(m2, degree, s0, over, right, mid);
    lemma_divided_left(m2, degree, s0, over, right, mid);
    lemma_divided_right(m2, degree, s0, over, right, mid);
    let sl = left_slot(m3v, s0, separator, right);
    let sr = right_slot(s0, separator, right);
    lemma_reach_dom(mv, degree, s0, degree);
    lemma_reach_dom(m3v, degree, sr, (degree - 1) as nat);
    lemma_reach_top(m3v, 0, height);
    lemma_reach_top(m3v, right, height);
    assert(!reach(m3v, 0, height).contains(left));
    lemma_relocate(m3v, degree, sl, (degree - 1) as nat, left, 0);
    // the right half is not touched by the move
    assert(same_inside(m3v, m4, reach(m3v, right, height))) by {
        assert forall|o: u64| reach(m3v, right, height).contains(o) implies m4.dom().contains(o)
            && #[trigger] m4[o] == m3v[o] by {
            assert(m3v.dom().contains(o));
            assert(!reach(m3v, 0, height).contains(o));
        }
    }
    lemma_frame(m3v, m4, degree, sr, (degree - 1) as nat);
    let moved = Slot { offset: left, parent: 0, ..sl };
    assert(children_ok(m4, degree, root, s1)) by {
        assert(child_slot(m4, root, s1, 0) == moved);
        assert(child_slot(m4, root, s1, 1) == sr);
        assert forall|j: int| 0 <= j < root.children.len() implies shape_with(
            m4,
            degree,
            #[trigger] child_slot(m4, root, s1, j),
            (degree - 1) as nat,
        ) by {
            if j == 0 {
            } else {
                assert(j == 1);
            }
        }
        assert forall|j: int| 0 <= j < root.children.len() implies !(#[trigger] reach(
            m4,
            root.children[j],
            height,
        )).contains(s1.offset) by {
            if j == 0 {
            } else {
                assert(j == 1);
            }
        }
        assert forall|a: int, b: int| 0 <= a < b < root.children.len() implies (#[trigger] reach(
            m4,
            root.children[a],
            height,
        )).disjoint(#[trigger] reach(m4, root.children[b], height)) by {
            assert(a == 0 && b == 1);
        }
    }
    lemma_rebuild(m4, degree, s1, (degree - 1) as nat, root);
    assert(contents(m5, 0, height + 1) =~= expected) by {
        assert forall|k: K| contents(m5, 0, height + 1).get(k) == expected.get(k) by {
            lemma_rebuilt_contents(m4, degree, s1, root, k);
            lemma_divided_contents(m2, degree, s0, over, right, mid, k);
            lemma_route(root.keys, k);
            if k.rank() < separator.rank() {
                assert(is_route(root.keys, k, 0));
            } else {
                assert(is_route(root.keys, k, 1));
            }
        }
        assert forall|k: K| contents(m5, 0, height + 1).dom().contains(k) == expected.dom().contains(
            k,
        ) by {
            assert(contents(m5, 0, height + 1).get(k) == expected.get(k));
        }
        assert forall|k: K| contents(m5, 0, height + 1).dom().contains(k) implies contents(
            m5,
            0,
            height + 1,
        )[k] == expected[k] by {
            assert(contents(m5, 0, height + 1).get(k) == expected.get(k));
        }
    }
}

} // verus!
