//! Dividing a node in two: what the file and the two halves then are.

use vstd::prelude::*;
use crate::index::Index;
use crate::node_type::NodeType;
use crate::nodes::crud::{
    lemma_leaf_map_split, lemma_route, lemma_route_prefix, lemma_route_suffix, route, sorted,
};
use crate::nodes::io::Heap;
use crate::nodes::NodeView;
use crate::tree::frame::{
    lemma_frame, lemma_reach_child, lemma_reach_dom, lemma_reach_top, same_inside,
};
use crate::tree::reparent::{all_shaped, apart, lemma_child, lemma_reparented, reparented, tops};
use crate::tree::shape::{
    child_slot, contents, in_range, leftmost, min_keys, reach, shape_with, Slot,
};
use crate::value::Value;

verus! {

/// What an overfull node keeps when it is divided at `mid`: the keys before
/// the middle; of a leaf their values, with a link to the other half at
/// `right`; of an internal node the children up to the middle one.
pub open spec fn left_half<K, V>(n: NodeView<K, V>, mid: int, right: u64) -> NodeView<K, V> {
    if n.is_leaf() {
        NodeView {
            node_type: NodeType::Leaf(Some(right)),
            keys: n.keys.subrange(0, mid),
            values: n.values.subrange(0, mid),
            ..n
        }
    } else {
        NodeView {
            keys: n.keys.subrange(0, mid),
            children: n.children.subrange(0, mid + 1),
            ..n
        }
    }
}

/// What an overfull node hands over when it is divided at `mid`: a node at
/// `right` with, of a leaf, the keys from the middle on and their values; of
/// an internal node the keys and the children behind the middle.
pub open spec fn right_half<K, V>(n: NodeView<K, V>, mid: int, right: u64) -> NodeView<K, V> {
    if n.is_leaf() {
        NodeView {
            is_root: false,
            offset: right,
            keys: n.keys.subrange(mid, n.keys.len() as int),
            values: n.values.subrange(mid, n.keys.len() as int),
            ..n
        }
    } else {
        NodeView {
            is_root: false,
            offset: right,
            keys: n.keys.subrange(mid + 1, n.keys.len() as int),
            children: n.children.subrange(mid + 1, n.children.len() as int),
            ..n
        }
    }
}

/// The file after the overfull node `over` of slot `s` was divided: the right
/// half stands at `right` as the parent of the children handed over, the left
/// half where the node was.
pub open spec fn divided<K, V>(
    m: Heap<K, V>,
    degree: nat,
    s: Slot<K>,
    over: NodeView<K, V>,
    right: u64,
    mid: int,
) -> Heap<K, V> {
    let r = right_half(over, mid, right);
    reparented(m.insert(right, r), r.children, right).insert(s.offset, left_half(over, mid, right))
}

/// Whether `over` is a node for slot `s` of the file `m`, ready to be divided
/// at `mid` with its right half at `right`: with `over` in the slot the
/// subtree is well-formed but for the number of keys at its top, each half
/// will hold no fewer and no more keys than a node may, and `right` is an
/// offset that the subtree does not reach.
pub open spec fn dividing<K: Index, V: Value>(
    m: Heap<K, V>,
    degree: nat,
    s: Slot<K>,
    over: NodeView<K, V>,
    right: u64,
    mid: int,
) -> bool {
    &&& shape_with(m.insert(s.offset, over), degree, s, over.keys.len())
    &&& degree >= 3
    &&& degree % 2 == 1
    &&& right != 0
    &&& right != s.offset
    &&& !reach(m.insert(s.offset, over), s.offset, s.height).contains(right)
    &&& if s.height == 0 {
        min_keys(degree) <= mid <= degree - 1 && min_keys(degree) <= over.keys.len() - mid
            <= degree - 1
    } else {
        1 <= mid <= degree - 1 && 1 <= over.keys.len() - mid - 1 <= degree - 1
    }
}

/// The slot of child `i` of an overfull node after the division: the slot it
/// had, under the half that it now belongs to.
pub open spec fn divided_slot<K, V>(
    m: Heap<K, V>,
    degree: nat,
    s: Slot<K>,
    over: NodeView<K, V>,
    right: u64,
    mid: int,
    i: int,
) -> Slot<K> {
    let c = child_slot(m.insert(s.offset, over), over, s, i);
    if i <= mid {
        c
    } else {
        Slot { parent: right, ..c }
    }
}

/// The slots of the children that an overfull internal node hands over.
pub open spec fn handed_over<K, V>(
    m: Heap<K, V>,
    degree: nat,
    s: Slot<K>,
    over: NodeView<K, V>,
    mid: int,
) -> Seq<Slot<K>> {
    Seq::new(
        (over.keys.len() - mid) as nat,
        |j: int| child_slot(m.insert(s.offset, over), over, s, mid + 1 + j),
    )
}

/// Before the division each child of the overfull node is a well-formed
/// subtree that holds neither the node nor the new offset; once the right
/// half stands at the new offset it is still that.
pub proof fn lemma_divided_child_first<K: Index, V: Value>(
    m: Heap<K, V>,
    degree: nat,
    s: Slot<K>,
    over: NodeView<K, V>,
    right: u64,
    mid: int,
    i: int,
)
    requires
        dividing(m, degree, s, over, right, mid),
        s.height > 0,
        0 <= i <= over.keys.len(),
    ensures
        ({
            let mv = m.insert(s.offset, over);
            let c = child_slot(mv, over, s, i);
            let ma = m.insert(right, right_half(over, mid, right));
            &&& over.children.len() == over.keys.len() + 1
            &&& c.offset == over.children[i]
            &&& c.offset != 0
            &&& c.height == s.height - 1
            &&& shape_with(mv, degree, c, (degree - 1) as nat)
            &&& shape_with(ma, degree, c, (degree - 1) as nat)
            &&& reach(mv, c.offset, c.height).subset_of(mv.dom())
            &&& !reach(mv, c.offset, c.height).contains(s.offset)
            &&& !reach(mv, c.offset, c.height).contains(right)
            &&& reach(ma, c.offset, c.height) == reach(mv, c.offset, c.height)
            &&& leftmost(ma, c.offset, c.height) == leftmost(mv, c.offset, c.height)
            &&& contents(ma, c.offset, c.height) == contents(mv, c.offset, c.height)
        }),
{
    let mv = m.insert(s.offset, over);
    let c = child_slot(mv, over, s, i);
    let ma = m.insert(right, right_half(over, mid, right));
    lemma_child(mv, degree, s, over.keys.len(), i);
    lemma_reach_child(mv, s.offset, s.height, i);
    lemma_reach_dom(mv, degree, c, (degree - 1) as nat);
    assert(same_inside(mv, ma, reach(mv, c.offset, c.height)));
    lemma_frame(mv, ma, degree, c, (degree - 1) as nat);
}

/// The children of one node share no node.
pub proof fn lemma_children_apart<K: Index, V: Value>(
    m: Heap<K, V>,
    degree: nat,
    s: Slot<K>,
    room: nat,
    i: int,
    j: int,
)
    requires
        shape_with(m, degree, s, room),
        s.height > 0,
        0 <= i < m[s.offset].children.len(),
        0 <= j < m[s.offset].children.len(),
        i != j,
    ensures
        reach(m, m[s.offset].children[i], (s.height - 1) as nat).disjoint(
            reach(m, m[s.offset].children[j], (s.height - 1) as nat),
        ),
{
    let n = m[s.offset];
    let h = (s.height - 1) as nat;
    if i < j {
        assert(reach(m, n.children[i], h).disjoint(reach(m, n.children[j], h)));
    } else {
        assert(reach(m, n.children[j], h).disjoint(reach(m, n.children[i], h)));
    }
}

/// After the division each child of the overfull node is a well-formed
/// subtree under the half that it belongs to, with the nodes, the first leaf
/// and the contents that it had.
pub proof fn lemma_divided_child<K: Index, V: Value>(
    m: Heap<K, V>,
    degree: nat,
    s: Slot<K>,
    over: NodeView<K, V>,
    right: u64,
    mid: int,
    i: int,
)
    requires
        dividing(m, degree, s, over, right, mid),
        s.height > 0,
        0 <= i <= over.keys.len(),
    ensures
        ({
            let mv = m.insert(s.offset, over);
            let c = child_slot(mv, over, s, i);
            let m3 = divided(m, degree, s, over, right, mid);
            &&& shape_with(
                m3,
                degree,
                divided_slot(m, degree, s, over, right, mid, i),
                (degree - 1) as nat,
            )
            &&& reach(m3, c.offset, c.height) == reach(mv, c.offset, c.height)
            &&& leftmost(m3, c.offset, c.height) == leftmost(mv, c.offset, c.height)
            &&& contents(m3, c.offset, c.height) == contents(mv, c.offset, c.height)
        }),
{
    let mv = m.insert(s.offset, over);
    let h = (s.height - 1) as nat;
    let c = child_slot(mv, over, s, i);
    let r = right_half(over, mid, right);
    let l = left_half(over, mid, right);
    let ma = m.insert(right, r);
    let rs = handed_over(m, degree, s, over, mid);
    let mb = reparented(ma, r.children, right);
    let m3 = divided(m, degree, s, over, right, mid);
    lemma_divided_child_first(m, degree, s, over, right, mid, i);
    assert(r.children =~= tops(rs)) by {
        assert forall|j: int| 0 <= j < rs.len() implies r.children[j] == tops(rs)[j] by {
            lemma_divided_child_first(m, degree, s, over, right, mid, mid + 1 + j);
        }
        lemma_divided_child_first(m, degree, s, over, right, mid, 0);
    }
    assert(all_shaped(ma, degree, rs)) by {
        assert forall|j: int| 0 <= j < rs.len() implies shape_with(
            ma,
            degree,
            #[trigger] rs[j],
            (degree - 1) as nat,
        ) by {
            lemma_divided_child_first(m, degree, s, over, right, mid, mid + 1 + j);
        }
    }
    assert(apart(ma, rs)) by {
        assert forall|a: int, b: int| 0 <= a < b < rs.len() implies (#[trigger] reach(
            ma,
            rs[a].offset,
            rs[a].height,
        )).disjoint(#[trigger] reach(ma, rs[b].offset, rs[b].height)) by {
            lemma_divided_child_first(m, degree, s, over, right, mid, mid + 1 + a);
            lemma_divided_child_first(m, degree, s, over, right, mid, mid + 1 + b);
            lemma_children_apart(mv, degree, s, over.keys.len(), mid + 1 + a, mid + 1 + b);
        }
    }
    lemma_reparented(ma, degree, rs, right);
    let cb = if i <= mid {
        c
    } else {
        Slot { parent: right, ..c }
    };
    if i <= mid {
        assert forall|o: u64| reach(ma, c.offset, c.height).contains(o) implies !tops(
            rs,
        ).contains(o) by {
            if tops(rs).contains(o) {
                let j = choose|j: int| 0 <= j < tops(rs).len() && tops(rs)[j] == o;
                lemma_divided_child_first(m, degree, s, over, right, mid, mid + 1 + j);
                lemma_children_apart(mv, degree, s, over.keys.len(), i, mid + 1 + j);
                lemma_reach_top(mv, over.children[mid + 1 + j], h);
            }
        }
        lemma_reach_dom(ma, degree, c, (degree - 1) as nat);
        assert(same_inside(ma, mb, reach(ma, c.offset, c.height)));
        lemma_frame(ma, mb, degree, c, (degree - 1) as nat);
    } else {
        assert(rs[i - mid - 1] == c);
    }
    assert(shape_with(mb, degree, cb, (degree - 1) as nat));
    assert(reach(mb, c.offset, c.height) == reach(mv, c.offset, c.height));
    lemma_reach_dom(mb, degree, cb, (degree - 1) as nat);
    assert(same_inside(mb, m3, reach(mb, cb.offset, cb.height)));
    lemma_frame(mb, m3, degree, cb, (degree - 1) as nat);
}

/// The slot of the left half after the division: bounded above by the
/// separator and followed by the first leaf of the right half.
pub open spec fn left_slot<K, V>(m3: Heap<K, V>, s: Slot<K>, separator: K, right: u64) -> Slot<K> {
    Slot { high: Some(separator), next: Some(leftmost(m3, right, s.height)), ..s }
}

/// The slot of the right half after the division: at the new offset, bounded
/// below by the separator.
pub open spec fn right_slot<K>(s: Slot<K>, separator: K, right: u64) -> Slot<K> {
    Slot { offset: right, low: Some(separator), ..s }
}

/// What stands where after the division: the two halves, and every other
/// node that was there before or had its parent recorded anew.
pub proof fn lemma_divided_nodes<K: Index, V: Value>(
    m: Heap<K, V>,
    degree: nat,
    s: Slot<K>,
    over: NodeView<K, V>,
    right: u64,
    mid: int,
)
    requires
        dividing(m, degree, s, over, right, mid),
    ensures
        ({
            let mv = m.insert(s.offset, over);
            let m3 = divided(m, degree, s, over, right, mid);
            &&& 1 <= mid < over.keys.len()
            &&& m3.dom() == mv.dom().insert(right)
            &&& m3[s.offset] == left_half(over, mid, right)
            &&& m3[right] == right_half(over, mid, right)
            &&& sorted(over.keys)
            &&& forall|i: int|
                0 <= i < over.keys.len() ==> in_range(#[trigger] over.keys[i], s.low, s.high)
            &&& over.parent_offset == s.parent
            &&& over.is_root == (s.offset == 0)
            &&& s.height == 0 ==> over.node_type == NodeType::Leaf(s.next) && over.values.len()
                == over.keys.len() && over.children.len() == 0
            &&& s.height > 0 ==> over.node_type == NodeType::Internal && over.values.len() == 0
                && over.children.len() == over.keys.len() + 1
            &&& forall|o: u64|
                m.dom().contains(o) && o != right && !reach(mv, s.offset, s.height).contains(o)
                    ==> #[trigger] m3[o] == m[o]
        }),
{
    let mv = m.insert(s.offset, over);
    let r = right_half(over, mid, right);
    let ma = m.insert(right, r);
    let mb = reparented(ma, r.children, right);
    let m3 = divided(m, degree, s, over, right, mid);
    let rs = handed_over(m, degree, s, over, mid);
    assert(mv[s.offset] == over);
    if s.height == 0 {
        assert(r.children =~= Seq::<u64>::empty());
        assert(mb == ma);
        assert(m3.dom() =~= mv.dom().insert(right));
    } else {
        assert(r.children =~= tops(rs)) by {
            assert forall|j: int| 0 <= j < rs.len() implies r.children[j] == tops(rs)[j] by {
                lemma_divided_child_first(m, degree, s, over, right, mid, mid + 1 + j);
            }
            lemma_divided_child_first(m, degree, s, over, right, mid, 0);
        }
        assert(all_shaped(ma, degree, rs)) by {
            assert forall|j: int| 0 <= j < rs.len() implies shape_with(
                ma,
                degree,
                #[trigger] rs[j],
                (degree - 1) as nat,
            ) by {
                lemma_divided_child_first(m, degree, s, over, right, mid, mid + 1 + j);
            }
        }
        assert(apart(ma, rs)) by {
            assert forall|a: int, b: int| 0 <= a < b < rs.len() implies (#[trigger] reach(
                ma,
                rs[a].offset,
                rs[a].height,
            )).disjoint(#[trigger] reach(ma, rs[b].offset, rs[b].height)) by {
                lemma_divided_child_first(m, degree, s, over, right, mid, mid + 1 + a);
                lemma_divided_child_first(m, degree, s, over, right, mid, mid + 1 + b);
                lemma_children_apart(mv, degree, s, over.keys.len(), mid + 1 + a, mid + 1 + b);
            }
        }
        lemma_reparented(ma, degree, rs, right);
        assert forall|o: u64| tops(rs).contains(o) implies reach(mv, s.offset, s.height).contains(
            o,
        ) && o != right && o != s.offset by {
            let j = choose|j: int| 0 <= j < tops(rs).len() && tops(rs)[j] == o;
            lemma_divided_child_first(m, degree, s, over, right, mid, mid + 1 + j);
            lemma_reach_top(mv, over.children[mid + 1 + j], (s.height - 1) as nat);
            assert(reach(mv, over.children[mid + 1 + j], (s.height - 1) as nat).contains(o));
        }
        assert(m3.dom() =~= mv.dom().insert(right));
        assert(ma.dom().contains(right));
        assert(!tops(rs).contains(right));
        assert(mb[right] == ma[right]);
        assert forall|o: u64|
            m.dom().contains(o) && o != right && !reach(mv, s.offset, s.height).contains(
                o,
            ) implies #[trigger] m3[o] == m[o] by {
            lemma_reach_top(mv, s.offset, s.height);
            assert(ma.dom().contains(o));
            assert(!tops(rs).contains(o));
            assert(mb[o] == ma[o]);
        }
    }
    lemma_reach_top(mv, s.offset, s.height);
}

/// After the division the left half is a well-formed subtree where the node
/// was, bounded above by the separator and followed by the right half.
pub proof fn lemma_divided_left<K: Index, V: Value>(
    m: Heap<K, V>,
    degree: nat,
    s: Slot<K>,
    over: NodeView<K, V>,
    right: u64,
    mid: int,
)
    requires
        dividing(m, degree, s, over, right, mid),
    ensures
        ({
            let mv = m.insert(s.offset, over);
            let m3 = divided(m, degree, s, over, right, mid);
            let separator = over.keys[mid];
            &&& shape_with(m3, degree, left_slot(m3, s, separator, right), (degree - 1) as nat)
            &&& leftmost(m3, s.offset, s.height) == leftmost(mv, s.offset, s.height)
            &&& reach(m3, s.offset, s.height).subset_of(reach(mv, s.offset, s.height))
        }),
{
    let mv = m.insert(s.offset, over);
    let m3 = divided(m, degree, s, over, right, mid);
    let separator = over.keys[mid];
    let l = left_half(over, mid, right);
    let sl = left_slot(m3, s, separator, right);
    lemma_divided_nodes(m, degree, s, over, right, mid);
    assert(sorted(l.keys));
    assert forall|i: int| 0 <= i < l.keys.len() implies in_range(
        #[trigger] l.keys[i],
        sl.low,
        sl.high,
    ) by {
        assert(in_range(over.keys[i], s.low, s.high));
    }
    if s.height > 0 {
        let h = (s.height - 1) as nat;
        assert forall|i: int| 0 <= i < l.children.len() implies l.children[i] != 0 && shape_with(
            m3,
            degree,
            #[trigger] child_slot(m3, l, sl, i),
            (degree - 1) as nat,
        ) && reach(m3, l.children[i], h) == reach(mv, over.children[i], h) by {
            lemma_divided_child_first(m, degree, s, over, right, mid, i);
            lemma_divided_child(m, degree, s, over, right, mid, i);
            lemma_divided_child_first(m, degree, s, over, right, mid, i + 1);
            lemma_divided_child(m, degree, s, over, right, mid, i + 1);
            assert(child_slot(m3, l, sl, i) == child_slot(mv, over, s, i));
        }
        assert forall|i: int| 0 <= i < l.children.len() implies !(#[trigger] reach(
            m3,
            l.children[i],
            h,
        )).contains(sl.offset) by {
            assert(child_slot(m3, l, sl, i).offset == l.children[i]);
            lemma_divided_child_first(m, degree, s, over, right, mid, i);
        }
        assert forall|i: int, j: int| 0 <= i < j < l.children.len() implies (#[trigger] reach(
            m3,
            l.children[i],
            h,
        )).disjoint(#[trigger] reach(m3, l.children[j], h)) by {
            assert(child_slot(m3, l, sl, i).offset == l.children[i]);
            assert(child_slot(m3, l, sl, j).offset == l.children[j]);
            lemma_children_apart(mv, degree, s, over.keys.len(), i, j);
        }
        assert(child_slot(m3, l, sl, 0).offset == l.children[0]);
        lemma_divided_child(m, degree, s, over, right, mid, 0);
        assert forall|o: u64| reach(m3, s.offset, s.height).contains(o) implies reach(
            mv,
            s.offset,
            s.height,
        ).contains(o) by {
            if o != s.offset {
                let i = choose|i: int|
                    0 <= i < l.children.len() && reach(m3, #[trigger] l.children[i], h).contains(o);
                assert(child_slot(m3, l, sl, i).offset == l.children[i]);
                assert(reach(mv, over.children[i], h).contains(o));
            }
        }
    }
}

/// After the division the right half is a well-formed subtree at the new
/// offset, bounded below by the separator.
pub proof fn lemma_divided_right<K: Index, V: Value>(
    m: Heap<K, V>,
    degree: nat,
    s: Slot<K>,
    over: NodeView<K, V>,
    right: u64,
    mid: int,
)
    requires
        dividing(m, degree, s, over, right, mid),
    ensures
        ({
            let mv = m.insert(s.offset, over);
            let m3 = divided(m, degree, s, over, right, mid);
            let separator = over.keys[mid];
            &&& shape_with(m3, degree, right_slot(s, separator, right), (degree - 1) as nat)
            &&& in_range(separator, s.low, s.high)
            &&& s.low matches Some(low) ==> low.rank() < separator.rank()
            &&& forall|o: u64|
                #[trigger] reach(m3, right, s.height).contains(o) ==> o == right || reach(
                    mv,
                    s.offset,
                    s.height,
                ).contains(o)
            &&& reach(m3, s.offset, s.height).disjoint(reach(m3, right, s.height))
            &&& s.height > 0 ==> leftmost(m3, right, s.height) == leftmost(
                mv,
                over.children[mid + 1],
                (s.height - 1) as nat,
            )
        }),
{
    let mv = m.insert(s.offset, over);
    let m3 = divided(m, degree, s, over, right, mid);
    let separator = over.keys[mid];
    let r = right_half(over, mid, right);
    let l = left_half(over, mid, right);
    let sr = right_slot(s, separator, right);
    lemma_divided_nodes(m, degree, s, over, right, mid);
    assert(in_range(over.keys[mid], s.low, s.high));
    assert(in_range(over.keys[0], s.low, s.high));
    assert(over.keys[0].rank() < over.keys[mid].rank());
    assert(sorted(r.keys));
    assert forall|i: int| 0 <= i < r.keys.len() implies in_range(
        #[trigger] r.keys[i],
        sr.low,
        sr.high,
    ) by {
        if s.height == 0 {
            assert(r.keys[i] == over.keys[i + mid]);
            assert(in_range(over.keys[i + mid], s.low, s.high));
        } else {
            assert(r.keys[i] == over.keys[i + mid + 1]);
            assert(in_range(over.keys[i + mid + 1], s.low, s.high));
        }
    }
    if s.height > 0 {
        let h = (s.height - 1) as nat;
        assert forall|j: int| 0 <= j < r.children.len() implies r.children[j] != 0 && shape_with(
            m3,
            degree,
            #[trigger] child_slot(m3, r, sr, j),
            (degree - 1) as nat,
        ) && reach(m3, r.children[j], h) == reach(mv, over.children[mid + 1 + j], h) by {
            lemma_divided_child_first(m, degree, s, over, right, mid, mid + 1 + j);
            lemma_divided_child(m, degree, s, over, right, mid, mid + 1 + j);
            if mid + 1 + j < over.keys.len() {
                lemma_divided_child_first(m, degree, s, over, right, mid, mid + 2 + j);
                lemma_divided_child(m, degree, s, over, right, mid, mid + 2 + j);
            }
            assert(child_slot(m3, r, sr, j) == divided_slot(m, degree, s, over, right, mid, mid + 1 + j));
        }
        assert forall|j: int| 0 <= j < r.children.len() implies !(#[trigger] reach(
            m3,
            r.children[j],
            h,
        )).contains(sr.offset) by {
            assert(child_slot(m3, r, sr, j).offset == r.children[j]);
            lemma_divided_child_first(m, degree, s, over, right, mid, mid + 1 + j);
        }
        assert forall|i: int, j: int| 0 <= i < j < r.children.len() implies (#[trigger] reach(
            m3,
            r.children[i],
            h,
        )).disjoint(#[trigger] reach(m3, r.children[j], h)) by {
            assert(child_slot(m3, r, sr, i).offset == r.children[i]);
            assert(child_slot(m3, r, sr, j).offset == r.children[j]);
            lemma_children_apart(mv, degree, s, over.keys.len(), mid + 1 + i, mid + 1 + j);
        }
        assert(child_slot(m3, r, sr, 0).offset == r.children[0]);
        lemma_divided_child(m, degree, s, over, right, mid, mid + 1);
        assert forall|o: u64| #[trigger]
            reach(m3, right, s.height).contains(o) implies o == right || reach(
            mv,
            s.offset,
            s.height,
        ).contains(o) by {
            if o != right {
                let j = choose|j: int|
                    0 <= j < r.children.len() && reach(m3, #[trigger] r.children[j], h).contains(o);
                assert(child_slot(m3, r, sr, j).offset == r.children[j]);
                assert(reach(mv, over.children[mid + 1 + j], h).contains(o));
                assert(mv[s.offset].children[mid + 1 + j] == over.children[mid + 1 + j]);
            }
        }
        assert forall|o: u64|
            reach(m3, s.offset, s.height).contains(o) && reach(m3, right, s.height).contains(
                o,
            ) implies false by {
            if o != right && o != s.offset {
                let j = choose|j: int|
                    0 <= j < r.children.len() && reach(m3, #[trigger] r.children[j], h).contains(o);
                let i = choose|i: int|
                    0 <= i < l.children.len() && reach(m3, #[trigger] l.children[i], h).contains(o);
                assert(child_slot(m3, r, sr, j).offset == r.children[j]);
                lemma_divided_child_first(m, degree, s, over, right, mid, i);
                lemma_divided_child(m, degree, s, over, right, mid, i);
                lemma_children_apart(mv, degree, s, over.keys.len(), i, mid + 1 + j);
            } else if o == right {
                lemma_divided_left(m, degree, s, over, right, mid);
                lemma_reach_dom(mv, degree, s, over.keys.len());
            } else {
                let j = choose|j: int|
                    0 <= j < r.children.len() && reach(m3, #[trigger] r.children[j], h).contains(o);
                assert(child_slot(m3, r, sr, j).offset == r.children[j]);
                lemma_divided_child_first(m, degree, s, over, right, mid, mid + 1 + j);
            }
        }
    }
}

/// After the division each key is found with its value in the half on its
/// side of the separator.
pub proof fn lemma_divided_contents<K: Index, V: Value>(
    m: Heap<K, V>,
    degree: nat,
    s: Slot<K>,
    over: NodeView<K, V>,
    right: u64,
    mid: int,
    key: K,
)
    requires
        dividing(m, degree, s, over, right, mid),
    ensures
        ({
            let mv = m.insert(s.offset, over);
            let m3 = divided(m, degree, s, over, right, mid);
            let separator = over.keys[mid];
            contents(mv, s.offset, s.height).get(key) == if key.rank() < separator.rank() {
                contents(m3, s.offset, s.height).get(key)
            } else {
                contents(m3, right, s.height).get(key)
            }
        }),
{
    let mv = m.insert(s.offset, over);
    let m3 = divided(m, degree, s, over, right, mid);
    let separator = over.keys[mid];
    let r = right_half(over, mid, right);
    let l = left_half(over, mid, right);
    lemma_divided_nodes(m, degree, s, over, right, mid);
    if s.height == 0 {
        lemma_leaf_map_split(over.keys, over.values, mid, key);
    } else {
        let h = (s.height - 1) as nat;
        lemma_route(over.keys, key);
        let i = route(over.keys, key);
        lemma_divided_child_first(m, degree, s, over, right, mid, i);
        lemma_divided_child(m, degree, s, over, right, mid, i);
        if key.rank() < separator.rank() {
            lemma_route_prefix(over.keys, mid, key);
            assert(l.children[i] == over.children[i]);
        } else {
            lemma_route_suffix(over.keys, mid, key);
            assert(r.children[i - (mid + 1)] == over.children[i]);
        }
    }
}

} // verus!
