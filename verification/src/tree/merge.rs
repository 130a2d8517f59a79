//! Making two neighbours one node.

use vstd::prelude::*;
use crate::index::Index;
use crate::nodes::crud::{
    all_below, lemma_leaf_map_concat, lemma_route, lemma_route_concat, none_below, route,
};
use crate::nodes::io::Heap;
use crate::nodes::NodeView;
use crate::tree::frame::{
    lemma_frame, lemma_holds_key, lemma_reach_child, lemma_reach_dom, lemma_reach_top, same_inside,
};
use crate::tree::rebuild::{children_ok, loose, top_ok};
use crate::tree::relocate::child_slots;
use crate::tree::reparent::{all_shaped, apart, lemma_reparented, reparented, tops};
use crate::tree::shape::{
    child_slot, contents, in_range, leftmost, min_keys, reach, shape_with, Slot,
};
use crate::value::Value;

verus! {

/// Two neighbours made one node: a leaf holds the pairs of both and the
/// link of the right one; an internal node the keys of the left one, the
/// separator and the keys of the right one, with the children of both. The
/// node stands where the left one stood.
pub open spec fn merged<K, V>(l: NodeView<K, V>, separator: K, r: NodeView<K, V>) -> NodeView<
    K,
    V,
> {
    if l.is_leaf() {
        NodeView {
            node_type: r.node_type,
            keys: l.keys + r.keys,
            values: l.values + r.values,
            ..l
        }
    } else {
        NodeView {
            keys: l.keys.push(separator) + r.keys,
            children: l.children + r.children,
            ..l
        }
    }
}

/// The file after the neighbours at `left` and `right` were made one node at
/// `left`: the children of the right one are told of their new parent.
pub open spec fn joined<K, V>(m: Heap<K, V>, left: u64, right: u64, separator: K) -> Heap<K, V> {
    reparented(m, m[right].children, left).insert(left, merged(m[left], separator, m[right]))
}

/// Whether the subtrees of the slots `sl` and `sr` are neighbours under one
/// parent, with `separator` between them, that can be made one: each is
/// well-formed but for the number of keys at its top, they share no node,
/// and two leaves hold together at least the least number of keys.
pub open spec fn joining<K: Index, V: Value>(
    m: Heap<K, V>,
    degree: nat,
    sl: Slot<K>,
    sr: Slot<K>,
    separator: K,
) -> bool {
    &&& loose(m, degree, sl, (degree - 1) as nat)
    &&& loose(m, degree, sr, (degree - 1) as nat)
    &&& sl.height == sr.height
    &&& sl.parent == sr.parent
    &&& sl.high == Some(separator)
    &&& sr.low == Some(separator)
    &&& sl.next == Some(leftmost(m, sr.offset, sr.height))
    &&& sl.offset != 0
    &&& sr.offset != 0
    &&& reach(m, sl.offset, sl.height).disjoint(reach(m, sr.offset, sr.height))
    &&& sl.height == 0 ==> m[sl.offset].keys.len() + m[sr.offset].keys.len() >= min_keys(degree)
    &&& in_range(separator, sl.low, sr.high)
    &&& degree >= 3
}

/// The slot of two neighbours made one: where the left one hung, up to the
/// upper bound of the right one, followed by what followed the right one.
pub open spec fn joined_slot<K>(sl: Slot<K>, sr: Slot<K>) -> Slot<K> {
    Slot { high: sr.high, next: sr.next, ..sl }
}

/// Each child of a node that is well-formed but for the number of its keys
/// is a well-formed subtree within the subtree of the node.
pub proof fn lemma_loose_child<K: Index, V: Value>(
    m: Heap<K, V>,
    degree: nat,
    s: Slot<K>,
    room: nat,
    j: int,
)
    requires
        loose(m, degree, s, room),
        s.height > 0,
        0 <= j < m[s.offset].children.len(),
    ensures
        ({
            let c = child_slot(m, m[s.offset], s, j);
            &&& c.offset == m[s.offset].children[j]
            &&& c.offset != 0
            &&& c.offset != s.offset
            &&& c.height == s.height - 1
            &&& shape_with(m, degree, c, (degree - 1) as nat)
            &&& reach(m, c.offset, c.height).contains(c.offset)
            &&& !reach(m, c.offset, c.height).contains(s.offset)
            &&& reach(m, c.offset, c.height).subset_of(reach(m, s.offset, s.height))
            &&& reach(m, c.offset, c.height).subset_of(m.dom())
        }),
{
    let n = m[s.offset];
    let c = child_slot(m, n, s, j);
    assert(n.children[j] != 0);
    assert(shape_with(m, degree, c, (degree - 1) as nat));
    assert(!reach(m, n.children[j], (s.height - 1) as nat).contains(s.offset));
    lemma_reach_child(m, s.offset, s.height, j);
    lemma_reach_dom(m, degree, c, (degree - 1) as nat);
    lemma_reach_top(m, c.offset, c.height);
}

/// The children of a node that is well-formed but for the number of its keys
/// share no node.
pub proof fn lemma_loose_apart<K: Index, V: Value>(
    m: Heap<K, V>,
    degree: nat,
    s: Slot<K>,
    room: nat,
    i: int,
    j: int,
)
    requires
        loose(m, degree, s, room),
        s.height > 0,
        0 <= i < m[s.offset].children.len(),
        0 <= j < m[s.offset].children.len(),
        i != j,
    ensures
        reach(m, m[s.offset].children[i], (s.height - 1) as nat).disjoint(
            reach(m, m[s.offset].children[j], (s.height - 1) as nat),
        ),
{
    let n = m[s.offset];
    let h = (s.height - 1) as nat;
    if i < j {
        assert(reach(m, n.children[i], h).disjoint(reach(m, n.children[j], h)));
    } else {
        assert(reach(m, n.children[j], h).disjoint(reach(m, n.children[i], h)));
    }
}

/// No child of the right one of two neighbours stands where either of the
/// two stands.
pub proof fn lemma_loose_apart_from<K: Index, V: Value>(
    m: Heap<K, V>,
    degree: nat,
    sl: Slot<K>,
    sr: Slot<K>,
    separator: K,
    j: int,
)
    requires
        joining(m, degree, sl, sr, separator),
        sl.height > 0,
        0 <= j < m[sr.offset].children.len(),
    ensures
        m[sr.offset].children[j] != sl.offset,
        m[sr.offset].children[j] != sr.offset,
{
    lemma_loose_child(m, degree, sr, (degree - 1) as nat, j);
    lemma_loose_reach(m, degree, sl, (degree - 1) as nat);
}

/// What a subtree that is well-formed but for the number of keys at its top
/// reaches lies in the file.
pub proof fn lemma_loose_reach<K: Index, V: Value>(
    m: Heap<K, V>,
    degree: nat,
    s: Slot<K>,
    room: nat,
)
    requires
        loose(m, degree, s, room),
    ensures
        reach(m, s.offset, s.height).subset_of(m.dom()),
        reach(m, s.offset, s.height).contains(s.offset),
{
    if s.height > 0 {
        let n = m[s.offset];
        assert forall|o: u64| reach(m, s.offset, s.height).contains(o) implies m.dom().contains(
            o,
        ) by {
            if o != s.offset {
                let i = choose|i: int|
                    0 <= i < n.children.len() && reach(
                        m,
                        #[trigger] n.children[i],
                        (s.height - 1) as nat,
                    ).contains(o);
                lemma_loose_child(m, degree, s, room, i);
            }
        }
    }
}

/// The children of the right neighbour are well-formed subtrees that share
/// no node.
pub proof fn lemma_joined_setup<K: Index, V: Value>(
    m: Heap<K, V>,
    degree: nat,
    sl: Slot<K>,
    sr: Slot<K>,
    separator: K,
)
    requires
        joining(m, degree, sl, sr, separator),
        sl.height > 0,
    ensures
        tops(child_slots(m, sr)) == m[sr.offset].children,
        all_shaped(m, degree, child_slots(m, sr)),
        apart(m, child_slots(m, sr)),
{
    let rs = child_slots(m, sr);
    let r = m[sr.offset];
    assert(tops(rs) =~= r.children);
    assert forall|a: int| 0 <= a < rs.len() implies shape_with(
        m,
        degree,
        #[trigger] rs[a],
        (degree - 1) as nat,
    ) by {
        lemma_loose_child(m, degree, sr, (degree - 1) as nat, a);
    }
    assert forall|a: int, b: int| 0 <= a < b < rs.len() implies (#[trigger] reach(
        m,
        rs[a].offset,
        rs[a].height,
    )).disjoint(#[trigger] reach(m, rs[b].offset, rs[b].height)) by {
        lemma_loose_child(m, degree, sr, (degree - 1) as nat, a);
        lemma_loose_child(m, degree, sr, (degree - 1) as nat, b);
        lemma_loose_apart(m, degree, sr, (degree - 1) as nat, a, b);
    }
}

/// The slot of child `j` of two internal neighbours made one: the slot that
/// the child had, under the node that stands where the left one stood.
pub open spec fn joined_child<K, V>(m: Heap<K, V>, sl: Slot<K>, sr: Slot<K>, j: int) -> Slot<K> {
    let l = m[sl.offset];
    let r = m[sr.offset];
    if j < l.children.len() {
        child_slot(m, l, sl, j)
    } else {
        Slot { parent: sl.offset, ..child_slot(m, r, sr, j - l.children.len()) }
    }
}

/// After two internal neighbours were made one, each child of either is a
/// well-formed subtree under the one node, with the nodes, the first leaf
/// and the contents that it had.
pub proof fn lemma_joined_child<K: Index, V: Value>(
    m: Heap<K, V>,
    degree: nat,
    sl: Slot<K>,
    sr: Slot<K>,
    separator: K,
    j: int,
)
    requires
        joining(m, degree, sl, sr, separator),
        sl.height > 0,
        0 <= j < m[sl.offset].children.len() + m[sr.offset].children.len(),
    ensures
        ({
            let mj = joined(m, sl.offset, sr.offset, separator);
            let c = joined_child(m, sl, sr, j);
            let h = (sl.height - 1) as nat;
            &&& c.height == h
            &&& c.offset == (m[sl.offset].children + m[sr.offset].children)[j]
            &&& c.offset != 0
            &&& c.offset != sl.offset
            &&& c.offset != sr.offset
            &&& shape_with(mj, degree, c, (degree - 1) as nat)
            &&& reach(mj, c.offset, h) == reach(m, c.offset, h)
            &&& leftmost(mj, c.offset, h) == leftmost(m, c.offset, h)
            &&& contents(mj, c.offset, h) == contents(m, c.offset, h)
            &&& !reach(m, c.offset, h).contains(sl.offset)
            &&& !reach(m, c.offset, h).contains(sr.offset)
            &&& reach(m, c.offset, h).contains(c.offset)
            &&& j < m[sl.offset].children.len() ==> reach(m, c.offset, h).subset_of(
                reach(m, sl.offset, sl.height),
            )
            &&& j >= m[sl.offset].children.len() ==> reach(m, c.offset, h).subset_of(
                reach(m, sr.offset, sr.height),
            )
        }),
{
    let l = m[sl.offset];
    let r = m[sr.offset];
    let rs = child_slots(m, sr);
    let mb = reparented(m, r.children, sl.offset);
    let mj = joined(m, sl.offset, sr.offset, separator);
    let c = joined_child(m, sl, sr, j);
    let h = (sl.height - 1) as nat;
    lemma_joined_setup(m, degree, sl, sr, separator);
    lemma_reparented(m, degree, rs, sl.offset);
    lemma_loose_reach(m, degree, sl, (degree - 1) as nat);
    lemma_loose_reach(m, degree, sr, (degree - 1) as nat);
    if j < l.children.len() {
        lemma_loose_child(m, degree, sl, (degree - 1) as nat, j);
        assert forall|o: u64| reach(m, c.offset, h).contains(o) implies !tops(rs).contains(o) by {
            if tops(rs).contains(o) {
                let a = choose|a: int| 0 <= a < tops(rs).len() && tops(rs)[a] == o;
                lemma_loose_child(m, degree, sr, (degree - 1) as nat, a);
            }
        }
        assert(same_inside(m, mb, reach(m, c.offset, h)));
        lemma_frame(m, mb, degree, c, (degree - 1) as nat);
    } else {
        let a = j - l.children.len();
        lemma_loose_child(m, degree, sr, (degree - 1) as nat, a);
        assert(rs[a] == child_slot(m, r, sr, a));
    }
    assert(shape_with(mb, degree, c, (degree - 1) as nat));
    lemma_reach_dom(mb, degree, c, (degree - 1) as nat);
    assert(same_inside(mb, mj, reach(mb, c.offset, h)));
    lemma_frame(mb, mj, degree, c, (degree - 1) as nat);
}

/// What stands where after two neighbours were made one: the one node where
/// the left one stood, the right one as it was, and every other node as it
/// was or with its parent recorded anew.
pub proof fn lemma_joined_nodes<K: Index, V: Value>(
    m: Heap<K, V>,
    degree: nat,
    sl: Slot<K>,
    sr: Slot<K>,
    separator: K,
)
    requires
        joining(m, degree, sl, sr, separator),
    ensures
        ({
            let mj = joined(m, sl.offset, sr.offset, separator);
            let l = m[sl.offset];
            let r = m[sr.offset];
            &&& mj.dom() == m.dom()
            &&& mj[sl.offset] == merged(l, separator, r)
            &&& mj[sr.offset] == r
            &&& sl.offset != sr.offset
            &&& all_below(l.keys, separator)
            &&& none_below(r.keys, separator)
            &&& sl.height > 0 ==> forall|i: int|
                0 <= i < r.keys.len() ==> separator.rank() < (#[trigger] r.keys[i]).rank()
            &&& forall|o: u64|
                m.dom().contains(o) && !reach(m, sl.offset, sl.height).contains(o) && (!reach(
                    m,
                    sr.offset,
                    sr.height,
                ).contains(o) || o == sr.offset) ==> #[trigger] mj[o] == m[o]
        }),
{
    let mj = joined(m, sl.offset, sr.offset, separator);
    let l = m[sl.offset];
    let r = m[sr.offset];
    let rs = child_slots(m, sr);
    let mb = reparented(m, r.children, sl.offset);
    lemma_loose_reach(m, degree, sl, (degree - 1) as nat);
    lemma_loose_reach(m, degree, sr, (degree - 1) as nat);
    assert forall|i: int| 0 <= i < l.keys.len() implies (#[trigger] l.keys[i]).rank()
        < separator.rank() by {
        assert(in_range(l.keys[i], sl.low, sl.high));
    }
    assert forall|i: int| 0 <= i < r.keys.len() implies separator.rank() <= (#[trigger] r.keys[i]).rank() by {
        assert(in_range(r.keys[i], sr.low, sr.high));
    }
    if sl.height == 0 {
        assert(r.children =~= Seq::<u64>::empty());
        assert(mb == m);
    } else {
        lemma_joined_setup(m, degree, sl, sr, separator);
        lemma_reparented(m, degree, rs, sl.offset);
        assert forall|o: u64| tops(rs).contains(o) implies reach(m, sr.offset, sr.height).contains(
            o,
        ) && o != sr.offset by {
            let a = choose|a: int| 0 <= a < tops(rs).len() && tops(rs)[a] == o;
            lemma_loose_child(m, degree, sr, (degree - 1) as nat, a);
        }
        assert(!tops(rs).contains(sr.offset));
        assert(m.dom().contains(sr.offset));
        assert(mb[sr.offset] == m[sr.offset]);
        assert forall|o: u64|
            m.dom().contains(o) && !reach(m, sl.offset, sl.height).contains(o) && (!reach(
                m,
                sr.offset,
                sr.height,
            ).contains(o) || o == sr.offset) implies #[trigger] mj[o] == m[o] by {
            assert(!tops(rs).contains(o));
            assert(mb[o] == m[o]);
        }
        assert forall|i: int| 0 <= i < r.keys.len() implies separator.rank() < (#[trigger] r.keys[i]).rank() by {
            lemma_loose_child(m, degree, sr, (degree - 1) as nat, 0);
            let c0 = child_slot(m, r, sr, 0);
            let k = lemma_holds_key(m, degree, c0, (degree - 1) as nat);
            if i > 0 {
                assert(r.keys[0].rank() < r.keys[i].rank());
            }
        }
    }
    assert(mj.dom() =~= m.dom());
}

/// Two neighbours made one are a well-formed subtree where the left one
/// hung, with room at its top for the keys of both; it starts with the leaf
/// that the left one started with.
pub proof fn lemma_joined_shape<K: Index, V: Value>(
    m: Heap<K, V>,
    degree: nat,
    sl: Slot<K>,
    sr: Slot<K>,
    separator: K,
)
    requires
        joining(m, degree, sl, sr, separator),
    ensures
        ({
            let mj = joined(m, sl.offset, sr.offset, separator);
            let t = merged(m[sl.offset], separator, m[sr.offset]);
            &&& shape_with(mj, degree, joined_slot(sl, sr), t.keys.len())
            &&& leftmost(mj, sl.offset, sl.height) == leftmost(m, sl.offset, sl.height)
            &&& forall|o: u64|
                #[trigger] reach(mj, sl.offset, sl.height).contains(o) ==> reach(
                    m,
                    sl.offset,
                    sl.height,
                ).contains(o) || (reach(m, sr.offset, sr.height).contains(o) && o != sr.offset)
        }),
{
    let mj = joined(m, sl.offset, sr.offset, separator);
    let l = m[sl.offset];
    let r = m[sr.offset];
    let t = merged(l, separator, r);
    let sm = joined_slot(sl, sr);
    lemma_joined_nodes(m, degree, sl, sr, separator);
    lemma_loose_reach(m, degree, sl, (degree - 1) as nat);
    if sl.height == 0 {
        lemma_leaf_map_concat(l.keys, l.values, r.keys, r.values, separator, separator);
        assert forall|i: int| 0 <= i < t.keys.len() implies in_range(
            #[trigger] t.keys[i],
            sm.low,
            sm.high,
        ) by {
            if i < l.keys.len() {
                assert(in_range(l.keys[i], sl.low, sl.high));
            } else {
                assert(t.keys[i] == r.keys[i - l.keys.len()]);
                assert(in_range(r.keys[i - l.keys.len()], sr.low, sr.high));
            }
        }
        assert(top_ok(t, degree, sm, t.keys.len()));
        crate::tree::rebuild::lemma_shape_parts(mj, degree, sm, t.keys.len());
    } else {
        let h = (sl.height - 1) as nat;
        lemma_route_concat(l.keys, separator, r.keys, separator);
        assert forall|i: int| 0 <= i < t.keys.len() implies in_range(
            #[trigger] t.keys[i],
            sm.low,
            sm.high,
        ) by {
            if i < l.keys.len() {
                assert(t.keys[i] == l.keys[i]);
                assert(in_range(l.keys[i], sl.low, sl.high));
            } else if i > l.keys.len() {
                assert(t.keys[i] == r.keys[i - l.keys.len() - 1]);
                assert(in_range(r.keys[i - l.keys.len() - 1], sr.low, sr.high));
            }
        }
        assert forall|j: int| 0 <= j < t.children.len() implies (#[trigger] t.children[j]) != 0 by {
            lemma_joined_child(m, degree, sl, sr, separator, j);
        }
        assert(top_ok(t, degree, sm, t.keys.len()));
        assert forall|j: int| 0 <= j < t.children.len() implies shape_with(
            mj,
            degree,
            #[trigger] child_slot(mj, t, sm, j),
            (degree - 1) as nat,
        ) by {
            lemma_joined_child(m, degree, sl, sr, separator, j);
            if j + 1 < t.children.len() {
                lemma_joined_child(m, degree, sl, sr, separator, j + 1);
            }
            assert(child_slot(mj, t, sm, j) == joined_child(m, sl, sr, j));
        }
        assert forall|j: int| 0 <= j < t.children.len() implies !(#[trigger] reach(
            mj,
            t.children[j],
            h,
        )).contains(sm.offset) by {
            lemma_joined_child(m, degree, sl, sr, separator, j);
        }
        assert forall|a: int, b: int| 0 <= a < b < t.children.len() implies (#[trigger] reach(
            mj,
            t.children[a],
            h,
        )).disjoint(#[trigger] reach(mj, t.children[b], h)) by {
            lemma_joined_child(m, degree, sl, sr, separator, a);
            lemma_joined_child(m, degree, sl, sr, separator, b);
            let n = l.children.len() as int;
            if b < n {
                lemma_loose_apart(m, degree, sl, (degree - 1) as nat, a, b);
            } else if a >= n {
                lemma_loose_apart(m, degree, sr, (degree - 1) as nat, a - n, b - n);
            }
        }
        assert(children_ok(mj, degree, t, sm));
        crate::tree::rebuild::lemma_shape_parts(mj, degree, sm, t.keys.len());
        lemma_joined_child(m, degree, sl, sr, separator, 0);
        assert(t.children[0] == l.children[0]);
        assert forall|o: u64| #[trigger]
            reach(mj, sl.offset, sl.height).contains(o) implies reach(
            m,
            sl.offset,
            sl.height,
        ).contains(o) || (reach(m, sr.offset, sr.height).contains(o) && o != sr.offset) by {
            if o != sl.offset {
                let j = choose|j: int|
                    0 <= j < t.children.len() && reach(mj, #[trigger] t.children[j], h).contains(o);
                lemma_joined_child(m, degree, sl, sr, separator, j);
            }
        }
    }
}

/// Two neighbours made one hold for each key what the neighbour on the key's
/// side of the separator held.
pub proof fn lemma_joined_contents<K: Index, V: Value>(
    m: Heap<K, V>,
    degree: nat,
    sl: Slot<K>,
    sr: Slot<K>,
    separator: K,
    key: K,
)
    requires
        joining(m, degree, sl, sr, separator),
    ensures
        contents(joined(m, sl.offset, sr.offset, separator), sl.offset, sl.height).get(key)
            == if key.rank() < separator.rank() {
            contents(m, sl.offset, sl.height).get(key)
        } else {
            contents(m, sr.offset, sr.height).get(key)
        },
{
    let mj = joined(m, sl.offset, sr.offset, separator);
    let l = m[sl.offset];
    let r = m[sr.offset];
    let t = merged(l, separator, r);
    lemma_joined_nodes(m, degree, sl, sr, separator);
    if sl.height == 0 {
        lemma_leaf_map_concat(l.keys, l.values, r.keys, r.values, separator, key);
    } else {
        lemma_route_concat(l.keys, separator, r.keys, key);
        lemma_route(l.keys, key);
        lemma_route(r.keys, key);
        lemma_route(t.keys, key);
        lemma_joined_child(m, degree, sl, sr, separator, route(t.keys, key));
    }
}

} // verus!
