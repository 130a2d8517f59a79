//! A leaf that is divided leaves its record: both halves go to new records.
//!
//! The division is seen here as two steps. First the full leaf is moved, as
//! it is, to the record of the left half: the tree stays what it was but for
//! where the leaf stands. Then the leaf is divided there. What is said of a
//! division in place holds of the second step, with the file of the first
//! step as the file before.

use vstd::prelude::*;
use crate::index::Index;
use crate::node_type::NodeType;
use crate::nodes::crud::{lemma_route, route};
use crate::nodes::io::Heap;
use crate::nodes::NodeView;
use crate::nodes::crud::has_key;
use crate::tree::absorb::{
    absorbed, child_split, lemma_absorb_split, lemma_insert_changes, lemma_leaf_put_ok,
    lemma_split_from_put, put_ok,
};
use crate::tree::divide::{divided, left_half, right_half};
use crate::tree::grow::leaf_with;
use crate::tree::reparent::reparented;
use crate::tree::frame::{
    confined, lemma_frame, lemma_reach_child, lemma_reach_dom, lemma_reach_top, same_inside,
    same_outside,
};
use crate::tree::rebuild::{
    children_ok, lemma_rebuild, lemma_rebuilt_contents, lemma_rebuilt_reach, lemma_shape_parts,
    top_ok,
};
use crate::tree::relocate::moved_top;
use crate::tree::reparent::lemma_child;
use crate::tree::divide::lemma_children_apart;
use crate::tree::shape::{
    child_slot, contents, in_range, leaf_of, leftmost, reach, shape_with, Slot,
};
use crate::value::Value;

verus! {

/// A leaf with another leaf behind it.
pub open spec fn relinked<K, V>(n: NodeView<K, V>, next: u64) -> NodeView<K, V> {
    NodeView { node_type: NodeType::Leaf(Some(next)), ..n }
}

/// A node with child `i` at another offset.
pub open spec fn with_child<K, V>(n: NodeView<K, V>, i: int, to: u64) -> NodeView<K, V> {
    NodeView { children: n.children.update(i, to), ..n }
}

/// The last leaf of the subtree of the given height at `offset`.
pub open spec fn last_leaf<K, V>(m: Heap<K, V>, offset: u64, height: nat) -> u64
    decreases height,
{
    if height == 0 || !m.dom().contains(offset) || m[offset].children.len() == 0 {
        offset
    } else {
        last_leaf(m, m[offset].children.last(), (height - 1) as nat)
    }
}

/// Whether the leaf that `key` belongs to in the subtree of the given height
/// at `offset` lies below the node at `offset` and is full, so that it is
/// divided when the key is put in.
pub open spec fn leaf_divides<K: Index, V>(
    m: Heap<K, V>,
    degree: nat,
    offset: u64,
    height: nat,
    key: K,
) -> bool {
    let leaf = leaf_of(m, offset, height, key);
    height > 0 && m.dom().contains(leaf) && m[leaf].keys.len() + 1 == degree
}

/// Whether the leaf that is divided when `key` is put in is the first leaf
/// of the subtree at `offset`: the way to it leads through first children
/// only.
pub open spec fn first_moves<K: Index, V>(
    m: Heap<K, V>,
    degree: nat,
    offset: u64,
    height: nat,
    key: K,
) -> bool
    decreases height,
{
    &&& height > 0
    &&& route(m[offset].keys, key) == 0
    &&& if height == 1 {
        leaf_divides(m, degree, offset, height, key)
    } else {
        first_moves(m, degree, m[offset].children[0], (height - 1) as nat, key)
    }
}

/// The first leaf of the subtree at `offset` once the leaf of `key` is
/// divided, where the left half goes to `left`.
pub open spec fn first_after<K: Index, V>(
    m: Heap<K, V>,
    degree: nat,
    offset: u64,
    height: nat,
    key: K,
    left: u64,
) -> u64 {
    if first_moves(m, degree, offset, height, key) {
        left
    } else {
        leftmost(m, offset, height)
    }
}

/// The file with the full leaf of `key` moved to the new record at `left`,
/// as it is: the node above names the new record in place of the old one,
/// and the leaf before it in the subtree, if there is one, is linked to the
/// new record. The old record stays as it is and is no longer reached.
pub open spec fn with_leaf_moved<K: Index, V>(
    m: Heap<K, V>,
    degree: nat,
    offset: u64,
    height: nat,
    key: K,
    left: u64,
) -> Heap<K, V>
    decreases height,
{
    let n = m[offset];
    let i = route(n.keys, key);
    if !leaf_divides(m, degree, offset, height, key) {
        m
    } else if height == 1 {
        let b = m.insert(left, moved_top(m[n.children[i]], left, offset));
        let b = if i > 0 {
            b.insert(n.children[i - 1], relinked(m[n.children[i - 1]], left))
        } else {
            b
        };
        b.insert(offset, with_child(n, i, left))
    } else {
        let b = with_leaf_moved(m, degree, n.children[i], (height - 1) as nat, key, left);
        if i > 0 && first_moves(m, degree, n.children[i], (height - 1) as nat, key) {
            let last = last_leaf(m, n.children[i - 1], (height - 1) as nat);
            b.insert(last, relinked(m[last], left))
        } else {
            b
        }
    }
}

/// Whether `b` is the file `m` with a leaf of the subtree of slot `s` moved
/// to a new record: the subtree is well-formed as before, holds what it
/// held and starts with the leaf `first`; it reaches only nodes that it
/// reached before or that are new, and no node outside it has changed or
/// gone.
pub open spec fn moved_ok<K: Index, V: Value>(
    m: Heap<K, V>,
    b: Heap<K, V>,
    degree: nat,
    s: Slot<K>,
    room: nat,
    first: u64,
) -> bool {
    &&& shape_with(b, degree, s, room)
    &&& contents(b, s.offset, s.height) == contents(m, s.offset, s.height)
    &&& leftmost(b, s.offset, s.height) == first
    &&& confined(m, reach(b, s.offset, s.height), reach(m, s.offset, s.height))
    &&& same_outside(m, b, reach(m, s.offset, s.height))
    &&& m.dom().subset_of(b.dom())
    &&& b[s.offset].keys == m[s.offset].keys
}

/// Linking the last leaf of a well-formed subtree to another leaf gives the
/// subtree as it was, with that leaf behind it.
pub proof fn lemma_relink_last<K: Index, V: Value>(
    m: Heap<K, V>,
    degree: nat,
    s: Slot<K>,
    room: nat,
    next: u64,
)
    requires
        shape_with(m, degree, s, room),
    ensures
        ({
            let last = last_leaf(m, s.offset, s.height);
            let m2 = m.insert(last, relinked(m[last], next));
            let s2 = Slot { next: Some(next), ..s };
            &&& reach(m, s.offset, s.height).contains(last)
            &&& m.dom().contains(last)
            &&& m[last].is_leaf()
            &&& shape_with(m2, degree, s2, room)
            &&& reach(m2, s.offset, s.height) == reach(m, s.offset, s.height)
            &&& leftmost(m2, s.offset, s.height) == leftmost(m, s.offset, s.height)
            &&& contents(m2, s.offset, s.height) == contents(m, s.offset, s.height)
        }),
    decreases s.height,
{
    let last = last_leaf(m, s.offset, s.height);
    let m2 = m.insert(last, relinked(m[last], next));
    let s2 = Slot { next: Some(next), ..s };
    let n = m[s.offset];
    lemma_reach_top(m, s.offset, s.height);
    if s.height == 0 {
        assert(contents(m2, s.offset, s.height) =~= contents(m, s.offset, s.height));
        assert(reach(m2, s.offset, s.height) =~= reach(m, s.offset, s.height));
    } else {
        let h = (s.height - 1) as nat;
        let k = n.keys.len() as int;
        let ck = child_slot(m, n, s, k);
        lemma_child(m, degree, s, room, k);
        lemma_relink_last(m, degree, ck, (degree - 1) as nat, next);
        lemma_reach_child(m, s.offset, s.height, k);
        assert(n.children.last() == n.children[k]);
        assert(last != s.offset);
        assert(m2[s.offset] == n);
        lemma_shape_parts(m, degree, s, room);
        assert forall|j: int| 0 <= j < k implies reach(m2, #[trigger] n.children[j], h) == reach(
            m,
            n.children[j],
            h,
        ) && leftmost(m2, n.children[j], h) == leftmost(m, n.children[j], h) && contents(
            m2,
            n.children[j],
            h,
        ) == contents(m, n.children[j], h) && shape_with(
            m2,
            degree,
            child_slot(m, n, s, j),
            (degree - 1) as nat,
        ) by {
            let cj = child_slot(m, n, s, j);
            lemma_child(m, degree, s, room, j);
            lemma_children_apart(m, degree, s, room, j, k);
            lemma_reach_dom(m, degree, cj, (degree - 1) as nat);
            assert(same_inside(m, m2, reach(m, cj.offset, cj.height)));
            lemma_frame(m, m2, degree, cj, (degree - 1) as nat);
        }
        assert(children_ok(m2, degree, n, s2)) by {
            assert forall|j: int| 0 <= j < n.children.len() implies shape_with(
                m2,
                degree,
                #[trigger] child_slot(m2, n, s2, j),
                (degree - 1) as nat,
            ) by {
                if j < k {
                    assert(reach(m2, n.children[j], h) == reach(m, n.children[j], h));
                    if j + 1 < k {
                        assert(leftmost(m2, n.children[j + 1], h) == leftmost(
                            m,
                            n.children[j + 1],
                            h,
                        ));
                    }
                    assert(child_slot(m2, n, s2, j) == child_slot(m, n, s, j));
                } else {
                    assert(child_slot(m2, n, s2, j) == (Slot { next: Some(next), ..ck }));
                }
            }
            assert forall|j: int| 0 <= j < n.children.len() implies !(#[trigger] reach(
                m2,
                n.children[j],
                h,
            )).contains(s.offset) by {
                if j < k {
                    assert(reach(m2, n.children[j], h) == reach(m, n.children[j], h));
                }
            }
            assert forall|a: int, c: int| 0 <= a < c < n.children.len() implies (#[trigger] reach(
                m2,
                n.children[a],
                h,
            )).disjoint(#[trigger] reach(m2, n.children[c], h)) by {
                assert(reach(m2, n.children[a], h) == reach(m, n.children[a], h));
                if c < k {
                    assert(reach(m2, n.children[c], h) == reach(m, n.children[c], h));
                }
            }
        }
        assert(m2.insert(s.offset, n) =~= m2);
        lemma_rebuild(m2, degree, s2, room, n);
        assert(reach(m2, s.offset, s.height) =~= reach(m, s.offset, s.height)) by {
            assert forall|o: u64|
                reach(m2, s.offset, s.height).contains(o) == reach(m, s.offset, s.height).contains(
                    o,
                ) by {
                if o != s.offset {
                    if reach(m2, s.offset, s.height).contains(o) {
                        let j = choose|j: int|
                            0 <= j < n.children.len() && reach(
                                m2,
                                #[trigger] n.children[j],
                                h,
                            ).contains(o);
                        if j < k {
                            assert(reach(m2, n.children[j], h) == reach(m, n.children[j], h));
                        }
                        assert(reach(m, n.children[j], h).contains(o));
                    }
                    if reach(m, s.offset, s.height).contains(o) {
                        let j = choose|j: int|
                            0 <= j < n.children.len() && reach(
                                m,
                                #[trigger] n.children[j],
                                h,
                            ).contains(o);
                        if j < k {
                            assert(reach(m2, n.children[j], h) == reach(m, n.children[j], h));
                        }
                        assert(reach(m2, n.children[j], h).contains(o));
                    }
                }
            }
        }
        if k > 0 {
            assert(leftmost(m2, n.children[0], h) == leftmost(m, n.children[0], h));
        }
        assert(contents(m2, s.offset, s.height) =~= contents(m, s.offset, s.height)) by {
            assert forall|key: K|
                contents(m2, n.children[route(n.keys, key)], h) == contents(
                    m,
                    n.children[route(n.keys, key)],
                    h,
                ) by {
                lemma_route(n.keys, key);
                let j = route(n.keys, key);
                if j < k {
                    assert(reach(m2, n.children[j], h) == reach(m, n.children[j], h));
                }
            }
        }
    }
}

/// What is known of the file with the full leaf of a key moved: the subtree
/// is what it was but for where the leaf stands, and only the new record has
/// been added.
pub open spec fn moved_facts<K: Index, V: Value>(
    m: Heap<K, V>,
    degree: nat,
    s: Slot<K>,
    room: nat,
    key: K,
    left: u64,
) -> bool {
    let b = with_leaf_moved(m, degree, s.offset, s.height, key, left);
    &&& moved_ok(m, b, degree, s, room, first_after(m, degree, s.offset, s.height, key, left))
    &&& forall|o: u64| #[trigger]
        reach(b, s.offset, s.height).contains(o) ==> reach(m, s.offset, s.height).contains(o) || o
            == left
    &&& forall|o: u64| #[trigger] b.dom().contains(o) ==> m.dom().contains(o) || o == left
    &&& s.height != 1 ==> b[s.offset] == m[s.offset]
    &&& first_moves(m, degree, s.offset, s.height, key) ==> leaf_divides(
        m,
        degree,
        s.offset,
        s.height,
        key,
    )
    &&& !leaf_divides(m, degree, s.offset, s.height, key) ==> b == m
    &&& s.height >= 2 ==> {
        let n = m[s.offset];
        let i = route(n.keys, key);
        &&& child_slot(b, n, s, i) == child_slot(m, n, s, i)
        &&& contents(b, n.children[i], (s.height - 1) as nat) == contents(
            m,
            n.children[i],
            (s.height - 1) as nat,
        )
    }
}

/// The file with the leaf that is child `i` of the node at `offset` moved to
/// `left`, before the node itself names the new record.
pub open spec fn leaf_moved_below<K, V>(m: Heap<K, V>, offset: u64, i: int, left: u64) -> Heap<
    K,
    V,
> {
    let n = m[offset];
    let b = m.insert(left, moved_top(m[n.children[i]], left, offset));
    if i > 0 {
        b.insert(n.children[i - 1], relinked(m[n.children[i - 1]], left))
    } else {
        b
    }
}

/// The children of a node one level above the leaves are in the file, apart
/// from each other and from the node.
pub proof fn lemma_flat_children<K: Index, V: Value>(
    m: Heap<K, V>,
    degree: nat,
    s: Slot<K>,
    room: nat,
)
    requires
        shape_with(m, degree, s, room),
        s.height == 1,
    ensures
        forall|j: int|
            0 <= j < m[s.offset].children.len() ==> m.dom().contains(
                #[trigger] m[s.offset].children[j],
            ) && m[s.offset].children[j] != s.offset && m[s.offset].children[j] != 0,
        forall|a: int, c: int|
            0 <= a < m[s.offset].children.len() && 0 <= c < m[s.offset].children.len() && a != c
                ==> m[s.offset].children[a] != m[s.offset].children[c],
{
    let n = m[s.offset];
    assert forall|j: int| 0 <= j < n.children.len() implies m.dom().contains(
        #[trigger] n.children[j],
    ) && n.children[j] != s.offset && n.children[j] != 0 by {
        lemma_child(m, degree, s, room, j);
        lemma_reach_top(m, n.children[j], 0);
    }
    assert forall|a: int, c: int|
        0 <= a < n.children.len() && 0 <= c < n.children.len() && a != c implies n.children[a]
        != n.children[c] by {
        lemma_children_apart(m, degree, s, room, a, c);
        lemma_reach_top(m, n.children[a], 0);
        lemma_reach_top(m, n.children[c], 0);
    }
}

/// With a leaf moved to a new record, each leaf below the node is a
/// well-formed leaf in the slot that the node gives it.
pub proof fn lemma_flat_child<K: Index, V: Value>(
    m: Heap<K, V>,
    degree: nat,
    s: Slot<K>,
    room: nat,
    i: int,
    left: u64,
    j: int,
)
    requires
        shape_with(m, degree, s, room),
        s.height == 1,
        0 <= i < m[s.offset].children.len(),
        0 <= j < m[s.offset].children.len(),
        !m.dom().contains(left),
        left != 0,
    ensures
        ({
            let n = m[s.offset];
            let m0 = leaf_moved_below(m, s.offset, i, left);
            let t = with_child(n, i, left);
            &&& shape_with(m0, degree, child_slot(m0, t, s, j), (degree - 1) as nat)
            &&& m0.dom().contains(t.children[j])
            &&& m0[t.children[j]].keys == m[n.children[j]].keys
            &&& m0[t.children[j]].values == m[n.children[j]].values
        }),
{
    let n = m[s.offset];
    let m0 = leaf_moved_below(m, s.offset, i, left);
    let t = with_child(n, i, left);
    lemma_flat_children(m, degree, s, room);
    lemma_child(m, degree, s, room, j);
    lemma_shape_parts(m, degree, s, room);
    let cj = child_slot(m, n, s, j);
    assert(shape_with(m, degree, cj, (degree - 1) as nat));
    assert(m.dom().contains(n.children[j]));
    if j + 1 < n.children.len() {
        assert(m.dom().contains(n.children[j + 1]));
        assert(n.children[j + 1] != n.children[j]);
    }
    if i > 0 {
        assert(m.dom().contains(n.children[i - 1]));
        assert(n.children[i - 1] != n.children[i]);
        if j != i - 1 {
            assert(n.children[i - 1] != n.children[j]);
        }
    }
    if j == i {
        assert(m0[left] == moved_top(m[n.children[i]], left, s.offset));
    } else if j == i - 1 {
        assert(m0[n.children[j]] == relinked(m[n.children[j]], left));
    } else {
        assert(m0[n.children[j]] == m[n.children[j]]);
    }
}

/// Moving a full leaf that hangs directly below the top node of a
/// well-formed subtree to a new record leaves the subtree well-formed, with
/// what it held.
pub proof fn lemma_moved_flat<K: Index, V: Value>(
    m: Heap<K, V>,
    degree: nat,
    s: Slot<K>,
    room: nat,
    key: K,
    left: u64,
)
    requires
        shape_with(m, degree, s, room),
        s.height == 1,
        leaf_divides(m, degree, s.offset, s.height, key),
        !m.dom().contains(left),
        left != 0,
    ensures
        moved_facts(m, degree, s, room, key, left),
{
    let n = m[s.offset];
    let i = route(n.keys, key);
    lemma_route(n.keys, key);
    lemma_shape_parts(m, degree, s, room);
    lemma_flat_children(m, degree, s, room);
    let o = n.children[i];
    let m0 = leaf_moved_below(m, s.offset, i, left);
    let t = with_child(n, i, left);
    let b = m0.insert(s.offset, t);
    assert(b == with_leaf_moved(m, degree, s.offset, s.height, key, left));
    assert(top_ok(t, degree, s, room));
    assert forall|j: int| 0 <= j < t.children.len() implies reach(
        m0,
        #[trigger] t.children[j],
        0,
    ) =~= set![t.children[j]] by {}
    assert(children_ok(m0, degree, t, s)) by {
        assert forall|j: int| 0 <= j < t.children.len() implies shape_with(
            m0,
            degree,
            #[trigger] child_slot(m0, t, s, j),
            (degree - 1) as nat,
        ) by {
            lemma_flat_child(m, degree, s, room, i, left, j);
        }
        assert forall|j: int| 0 <= j < t.children.len() implies !(#[trigger] reach(
            m0,
            t.children[j],
            (s.height - 1) as nat,
        )).contains(s.offset) by {
            assert(n.children[j] != s.offset);
        }
        assert forall|a: int, c: int| 0 <= a < c < t.children.len() implies (#[trigger] reach(
            m0,
            t.children[a],
            (s.height - 1) as nat,
        )).disjoint(#[trigger] reach(m0, t.children[c], (s.height - 1) as nat)) by {
            assert(n.children[a] != n.children[c]);
            assert(m.dom().contains(n.children[a]) && m.dom().contains(n.children[c]));
        }
    }
    lemma_rebuild(m0, degree, s, room, t);
    lemma_rebuilt_reach(m0, degree, s, t);
    lemma_moved_flat_holds(m, degree, s, room, key, left);
    lemma_reach_top(m, s.offset, s.height);
    assert forall|x: u64| #[trigger]
        reach(b, s.offset, s.height).contains(x) implies reach(m, s.offset, s.height).contains(x)
        || x == left by {
        if x != s.offset {
            let j = choose|j: int|
                0 <= j < t.children.len() && reach(m0, #[trigger] t.children[j], 0).contains(x);
            assert(x == t.children[j]);
            if j != i {
                lemma_reach_child(m, s.offset, s.height, j);
                lemma_reach_top(m, n.children[j], 0);
            }
        }
    }
    assert forall|x: u64|
        #![trigger b[x]]
        #![trigger b.dom().contains(x)]
        m.dom().contains(x) && !reach(m, s.offset, s.height).contains(x) implies b.dom().contains(
            x,
        ) && b[x] == m[x] by {
        if i > 0 {
            lemma_reach_child(m, s.offset, s.height, i - 1);
            lemma_reach_top(m, n.children[i - 1], 0);
        }
    }
    assert(leftmost(m, n.children[0], 0) == n.children[0]);
    assert(leftmost(m, s.offset, s.height) == n.children[0]);
    assert(leftmost(m0, t.children[0], 0) == t.children[0]);
    assert(leaf_of(m, o, 0, key) == o);
    assert(leaf_of(m, s.offset, s.height, key) == o);
}

/// With a leaf below it moved to a new record, the node one level above the
/// leaves holds what it held.
pub proof fn lemma_moved_flat_holds<K: Index, V: Value>(
    m: Heap<K, V>,
    degree: nat,
    s: Slot<K>,
    room: nat,
    key: K,
    left: u64,
)
    requires
        shape_with(m, degree, s, room),
        s.height == 1,
        !m.dom().contains(left),
        left != 0,
    ensures
        ({
            let n = m[s.offset];
            let i = route(n.keys, key);
            let b = leaf_moved_below(m, s.offset, i, left).insert(
                s.offset,
                with_child(n, i, left),
            );
            contents(b, s.offset, s.height) == contents(m, s.offset, s.height)
        }),
{
    let n = m[s.offset];
    let i = route(n.keys, key);
    lemma_route(n.keys, key);
    lemma_shape_parts(m, degree, s, room);
    lemma_flat_children(m, degree, s, room);
    let m0 = leaf_moved_below(m, s.offset, i, left);
    let t = with_child(n, i, left);
    let b = m0.insert(s.offset, t);
    assert forall|k: K|
        contents(b, t.children[route(t.keys, k)], 0) == contents(
            m,
            n.children[route(n.keys, k)],
            0,
        ) by {
        lemma_route(n.keys, k);
        let j = route(n.keys, k);
        lemma_flat_child(m, degree, s, room, i, left, j);
        assert(m.dom().contains(n.children[j]));
        assert(t.children[j] != s.offset);
        assert(b.dom().contains(t.children[j]));
        assert(b[t.children[j]] == m0[t.children[j]]);
    }
    assert(contents(b, s.offset, s.height) =~= contents(m, s.offset, s.height));
}

/// Moving the full leaf of a key in a well-formed subtree to a new record
/// leaves the subtree well-formed, with what it held.
pub proof fn lemma_moved<K: Index, V: Value>(
    m: Heap<K, V>,
    degree: nat,
    s: Slot<K>,
    room: nat,
    key: K,
    left: u64,
)
    requires
        shape_with(m, degree, s, room),
        !m.dom().contains(left),
        left != 0,
    ensures
        moved_facts(m, degree, s, room, key, left),
    decreases s.height,
{
    let n = m[s.offset];
    let i = route(n.keys, key);
    let b = with_leaf_moved(m, degree, s.offset, s.height, key, left);
    lemma_reach_top(m, s.offset, s.height);
    if s.height == 0 {
    } else if s.height == 1 {
        if leaf_divides(m, degree, s.offset, s.height, key) {
            lemma_moved_flat(m, degree, s, room, key, left);
        }
    } else {
        let h = (s.height - 1) as nat;
        lemma_route(n.keys, key);
        lemma_shape_parts(m, degree, s, room);
        let c = n.children[i];
        let cs = child_slot(m, n, s, i);
        lemma_child(m, degree, s, room, i);
        lemma_moved(m, degree, cs, (degree - 1) as nat, key, left);
        assert(leaf_of(m, s.offset, s.height, key) == leaf_of(m, c, h, key));
        assert(leaf_divides(m, degree, s.offset, s.height, key) == leaf_divides(
            m,
            degree,
            c,
            h,
            key,
        ));
        if leaf_divides(m, degree, s.offset, s.height, key) {
            lemma_moved_step(m, degree, s, room, key, left);
        }
    }
}

/// The step of [`lemma_moved`] at a node two levels or more above the
/// leaves.
pub proof fn lemma_moved_step<K: Index, V: Value>(
    m: Heap<K, V>,
    degree: nat,
    s: Slot<K>,
    room: nat,
    key: K,
    left: u64,
)
    requires
        shape_with(m, degree, s, room),
        s.height >= 2,
        !m.dom().contains(left),
        left != 0,
        moved_facts(
            m,
            degree,
            child_slot(m, m[s.offset], s, route(m[s.offset].keys, key)),
            (degree - 1) as nat,
            key,
            left,
        ),
        leaf_divides(m, degree, s.offset, s.height, key),
    ensures
        moved_facts(m, degree, s, room, key, left),
{
    let n = m[s.offset];
    let i = route(n.keys, key);
    let h = (s.height - 1) as nat;
    lemma_route(n.keys, key);
    lemma_shape_parts(m, degree, s, room);
    lemma_reach_top(m, s.offset, s.height);
    let c = n.children[i];
    let cs = child_slot(m, n, s, i);
    lemma_child(m, degree, s, room, i);
    lemma_reach_dom(m, degree, cs, (degree - 1) as nat);
    lemma_reach_child(m, s.offset, s.height, i);
    let bc = with_leaf_moved(m, degree, c, h, key, left);
    let moved = first_moves(m, degree, c, h, key);
    let relink = i > 0 && moved;
    let last = last_leaf(m, n.children[i - 1], h);
    let rl = relinked(m[last], left);
    let b = if relink {
        bc.insert(last, rl)
    } else {
        bc
    };
    assert(leaf_of(m, s.offset, s.height, key) == leaf_of(m, c, h, key));
    assert(b == with_leaf_moved(m, degree, s.offset, s.height, key, left));
    let fc = first_after(m, degree, c, h, key, left);
    if relink {
        let sl = child_slot(m, n, s, i - 1);
        lemma_child(m, degree, s, room, i - 1);
        lemma_relink_last(m, degree, sl, (degree - 1) as nat, left);
        lemma_children_apart(m, degree, s, room, i - 1, i);
        lemma_reach_dom(m, degree, sl, (degree - 1) as nat);
        lemma_reach_child(m, s.offset, s.height, i - 1);
        assert(!reach(bc, c, h).contains(last));
        lemma_reach_dom(bc, degree, cs, (degree - 1) as nat);
        assert(same_inside(bc, b, reach(bc, c, h)));
        lemma_frame(bc, b, degree, cs, (degree - 1) as nat);
        let ml = m.insert(last, rl);
        let sl2 = Slot { next: Some(left), ..sl };
        assert(same_inside(ml, b, reach(ml, sl.offset, sl.height))) by {
            assert forall|x: u64|
                #![trigger b[x]]
                #![trigger b.dom().contains(x)]
                reach(ml, sl.offset, sl.height).contains(x) implies b.dom().contains(x) && b[x]
                == ml[x] by {
                assert(reach(m, sl.offset, sl.height).contains(x));
                assert(!reach(m, c, h).contains(x));
                assert(m.dom().contains(x));
                assert(bc.dom().contains(x) && bc[x] == m[x]);
            }
        }
        lemma_frame(ml, b, degree, sl2, (degree - 1) as nat);
    }
    assert(b[s.offset] == n && b.dom().contains(s.offset)) by {
        assert(!reach(m, c, h).contains(s.offset));
        assert(bc.dom().contains(s.offset) && bc[s.offset] == m[s.offset]);
        if relink {
            lemma_reach_child(m, s.offset, s.height, i - 1);
            lemma_child(m, degree, s, room, i - 1);
        }
    }
    // every child but the one on the way, and the one before it where it is
    // linked anew, is what it was
    assert forall|j: int|
        0 <= j < n.children.len() && j != i && !(relink && j == i - 1) implies shape_with(
        b,
        degree,
        child_slot(m, n, s, j),
        (degree - 1) as nat,
    ) && reach(b, #[trigger] n.children[j], h) == reach(m, n.children[j], h) && leftmost(
        b,
        n.children[j],
        h,
    ) == leftmost(m, n.children[j], h) && contents(b, n.children[j], h) == contents(
        m,
        n.children[j],
        h,
    ) by {
        let cj = child_slot(m, n, s, j);
        lemma_child(m, degree, s, room, j);
        lemma_children_apart(m, degree, s, room, j, i);
        lemma_reach_dom(m, degree, cj, (degree - 1) as nat);
        if relink {
            lemma_children_apart(m, degree, s, room, j, i - 1);
        }
        assert(same_inside(m, b, reach(m, cj.offset, cj.height))) by {
            assert forall|x: u64|
                #![trigger b[x]]
                #![trigger b.dom().contains(x)]
                reach(m, cj.offset, cj.height).contains(x) implies b.dom().contains(x) && b[x]
                == m[x] by {
                assert(!reach(m, c, h).contains(x));
                assert(m.dom().contains(x));
                assert(bc.dom().contains(x) && bc[x] == m[x]);
            }
        }
        lemma_frame(m, b, degree, cj, (degree - 1) as nat);
    }
    assert(shape_with(b, degree, cs, (degree - 1) as nat) && leftmost(b, c, h) == fc && contents(
        b,
        c,
        h,
    ) == contents(m, c, h) && reach(b, c, h) == reach(bc, c, h));
    if relink {
        let sl = child_slot(m, n, s, i - 1);
        assert(reach(b, n.children[i - 1], h) == reach(m, n.children[i - 1], h));
        assert(contents(b, n.children[i - 1], h) == contents(m, n.children[i - 1], h));
        assert(leftmost(b, n.children[i - 1], h) == leftmost(m, n.children[i - 1], h));
    }
    assert forall|j: int| 0 <= j < n.children.len() && j != i implies reach(
        b,
        #[trigger] n.children[j],
        h,
    ) == reach(m, n.children[j], h) && contents(b, n.children[j], h) == contents(
        m,
        n.children[j],
        h,
    ) && leftmost(b, n.children[j], h) == leftmost(m, n.children[j], h) && reach(
        m,
        n.children[j],
        h,
    ).subset_of(m.dom()) && reach(m, n.children[j], h).disjoint(reach(m, c, h)) && !reach(
        m,
        n.children[j],
        h,
    ).contains(s.offset) by {
        lemma_child(m, degree, s, room, j);
        lemma_children_apart(m, degree, s, room, j, i);
        lemma_reach_dom(m, degree, child_slot(m, n, s, j), (degree - 1) as nat);
    }
    assert(children_ok(b, degree, n, s)) by {
        assert forall|j: int| 0 <= j < n.children.len() implies shape_with(
            b,
            degree,
            #[trigger] child_slot(b, n, s, j),
            (degree - 1) as nat,
        ) by {
            if j + 1 < n.children.len() && j + 1 != i {
                assert(leftmost(b, n.children[j + 1], h) == leftmost(m, n.children[j + 1], h));
            }
            if j == i {
                assert(child_slot(b, n, s, j) == cs);
            } else if j == i - 1 {
                if relink {
                    assert(child_slot(b, n, s, j) == (Slot {
                        next: Some(left),
                        ..child_slot(m, n, s, j)
                    }));
                } else {
                    assert(child_slot(b, n, s, j) == child_slot(m, n, s, j));
                }
            } else {
                assert(child_slot(b, n, s, j) == child_slot(m, n, s, j));
            }
        }
        assert forall|j: int| 0 <= j < n.children.len() implies !(#[trigger] reach(
            b,
            n.children[j],
            h,
        )).contains(s.offset) by {
            if j == i {
                assert(!reach(m, c, h).contains(s.offset));
            }
        }
        assert forall|a: int, d: int| 0 <= a < d < n.children.len() implies (#[trigger] reach(
            b,
            n.children[a],
            h,
        )).disjoint(#[trigger] reach(b, n.children[d], h)) by {
            lemma_children_apart(m, degree, s, room, a, d);
        }
    }
    assert(b.insert(s.offset, n) =~= b);
    lemma_rebuild(b, degree, s, room, n);
    lemma_rebuilt_reach(b, degree, s, n);
    assert(contents(b, s.offset, s.height) =~= contents(m, s.offset, s.height)) by {
        assert forall|k: K|
            contents(b, n.children[route(n.keys, k)], h) == contents(
                m,
                n.children[route(n.keys, k)],
                h,
            ) by {
            lemma_route(n.keys, k);
        }
    }
    assert forall|x: u64| #[trigger]
        reach(b, s.offset, s.height).contains(x) implies reach(m, s.offset, s.height).contains(x)
        || x == left by {
        if x != s.offset {
            let j = choose|j: int|
                0 <= j < n.children.len() && reach(b, #[trigger] n.children[j], h).contains(x);
            lemma_reach_child(m, s.offset, s.height, j);
        }
    }
    assert forall|x: u64|
        #![trigger b[x]]
        #![trigger b.dom().contains(x)]
        m.dom().contains(x) && !reach(m, s.offset, s.height).contains(x) implies b.dom().contains(
            x,
        ) && b[x] == m[x] by {
        assert(!reach(m, c, h).contains(x));
        assert(bc.dom().contains(x) && bc[x] == m[x]);
        if relink {
            lemma_child(m, degree, s, room, i - 1);
            lemma_relink_last(m, degree, child_slot(m, n, s, i - 1), (degree - 1) as nat, left);
            lemma_reach_child(m, s.offset, s.height, i - 1);
        }
    }
    assert(leftmost(m, s.offset, s.height) == leftmost(m, n.children[0], h));
}

/// A change that a subtree has taken in stays what it is when a node that
/// the subtree does not reach is changed both in the file before and in the
/// file after.
pub proof fn lemma_put_rebased<K: Index, V: Value>(
    b: Heap<K, V>,
    m2: Heap<K, V>,
    degree: nat,
    c: Slot<K>,
    top: NodeView<K, V>,
    room: nat,
    expected: Map<K, V>,
    room0: nat,
    at: u64,
    x: NodeView<K, V>,
)
    requires
        put_ok(b, m2, degree, c, top, room, expected),
        shape_with(b, degree, c, room0),
        b.dom().contains(at),
        !reach(b, c.offset, c.height).contains(at),
    ensures
        put_ok(b.insert(at, x), m2.insert(at, x), degree, c, top, room, expected),
{
    reveal(put_ok);
    let mv = m2.insert(c.offset, top);
    let b2 = b.insert(at, x);
    let mv2 = m2.insert(at, x).insert(c.offset, top);
    lemma_reach_top(b, c.offset, c.height);
    assert(mv2 =~= mv.insert(at, x));
    assert(!reach(mv, c.offset, c.height).contains(at));
    lemma_reach_dom(mv, degree, c, room);
    lemma_reach_dom(b, degree, c, room0);
    assert(same_inside(mv, mv2, reach(mv, c.offset, c.height)));
    lemma_frame(mv, mv2, degree, c, room);
    assert(same_inside(b, b2, reach(b, c.offset, c.height)));
    lemma_frame(b, b2, degree, c, room0);
}

/// A change that a subtree has taken in depends on the file after the change
/// only through what stands beside the top node.
pub proof fn lemma_put_same_top<K: Index, V: Value>(
    b: Heap<K, V>,
    md: Heap<K, V>,
    hp: Heap<K, V>,
    degree: nat,
    s: Slot<K>,
    top: NodeView<K, V>,
    room: nat,
    expected: Map<K, V>,
)
    requires
        put_ok(b, md, degree, s, top, room, expected),
        md.insert(s.offset, top) == hp.insert(s.offset, top),
        hp.dom().contains(s.offset),
    ensures
        put_ok(b, hp, degree, s, top, room, expected),
{
    reveal(put_ok);
    lemma_reach_top(b, s.offset, s.height);
    assert forall|o: u64|
        #![trigger hp[o]]
        #![trigger hp.dom().contains(o)]
        b.dom().contains(o) && !reach(b, s.offset, s.height).contains(o) implies hp.dom().contains(
            o,
        ) && hp[o] == b[o] by {
        assert(o != s.offset);
        assert(md.dom().contains(o) && md[o] == b[o]);
        assert(md.insert(s.offset, top).dom().contains(o));
        assert(hp.insert(s.offset, top).dom().contains(o));
        assert(hp.insert(s.offset, top)[o] == md.insert(s.offset, top)[o]);
        assert(hp.insert(s.offset, top)[o] == hp[o]);
        assert(md.insert(s.offset, top)[o] == md[o]);
    }
    assert forall|o: u64| b.dom().contains(o) implies hp.dom().contains(o) by {
        if o != s.offset {
            assert(md.dom().contains(o));
            assert(md.insert(s.offset, top).dom().contains(o));
            assert(hp.insert(s.offset, top).dom().contains(o));
        }
    }
}

/// The file after the full leaf of `key` below the node at `offset` was
/// divided: the right half stands in the new record at `right`, the left
/// half in the new record at `left`, and the leaf before the two, if the node
/// has one, is linked to the left half. The node itself is still to be
/// written.
pub open spec fn leaf_halved<K: Index, V>(
    m: Heap<K, V>,
    degree: nat,
    offset: u64,
    key: K,
    value: V,
    left: u64,
    right: u64,
) -> Heap<K, V> {
    let n = m[offset];
    let i = route(n.keys, key);
    let over = moved_top(leaf_with(m[n.children[i]], key, value), left, offset);
    let mid = (degree / 2) as int;
    let h = m.insert(right, right_half(over, mid, right)).insert(left, left_half(over, mid, right));
    if i > 0 {
        h.insert(n.children[i - 1], relinked(m[n.children[i - 1]], left))
    } else {
        h
    }
}

/// The node above a leaf that was divided: with the separator at index `i`
/// and the two halves in place of child `i`.
pub open spec fn absorbed_halves<K, V>(
    n: NodeView<K, V>,
    i: int,
    separator: K,
    left: u64,
    right: u64,
) -> NodeView<K, V> {
    absorbed(with_child(n, i, left), i, separator, right)
}

/// Dividing the full leaf of an absent key into two new records, below a
/// node one level above the leaves, is a change that the subtree of the node
/// takes in by one key more at its top: as if the leaf had been moved to the
/// record of the left half first and divided there.
pub proof fn lemma_leaf_halved<K: Index, V: Value>(
    m: Heap<K, V>,
    degree: nat,
    s: Slot<K>,
    key: K,
    value: V,
    left: u64,
    right: u64,
)
    requires
        shape_with(m, degree, s, (degree - 1) as nat),
        s.height == 1,
        degree >= 3,
        degree % 2 == 1,
        in_range(key, s.low, s.high),
        leaf_divides(m, degree, s.offset, s.height, key),
        !contents(m, s.offset, s.height).contains_key(key),
        !m.dom().contains(left),
        !m.dom().contains(right),
        left != 0,
        right != 0,
        left != right,
    ensures
        ({
            let n = m[s.offset];
            let i = route(n.keys, key);
            let over = leaf_with(m[n.children[i]], key, value);
            put_ok(
                with_leaf_moved(m, degree, s.offset, s.height, key, left),
                leaf_halved(m, degree, s.offset, key, value, left, right),
                degree,
                s,
                absorbed_halves(n, i, over.keys[(degree / 2) as int], left, right),
                degree,
                contents(m, s.offset, s.height).insert(key, value),
            )
        }),
{
    let n = m[s.offset];
    let i = route(n.keys, key);
    let o = n.children[i];
    let mid = (degree / 2) as int;
    let b = with_leaf_moved(m, degree, s.offset, s.height, key, left);
    let hp = leaf_halved(m, degree, s.offset, key, value, left, right);
    let whole = contents(m, s.offset, s.height).insert(key, value);
    lemma_route(n.keys, key);
    lemma_shape_parts(m, degree, s, (degree - 1) as nat);
    lemma_flat_children(m, degree, s, (degree - 1) as nat);
    lemma_child(m, degree, s, (degree - 1) as nat, i);
    assert(leaf_of(m, o, 0, key) == o);
    assert(leaf_of(m, s.offset, s.height, key) == o);
    lemma_moved(m, degree, s, (degree - 1) as nat, key, left);
    assert(b == leaf_moved_below(m, s.offset, i, left).insert(s.offset, with_child(n, i, left)));
    let t = b[s.offset];
    assert(t == with_child(n, i, left));
    let c = child_slot(b, t, s, i);
    lemma_child(b, degree, s, (degree - 1) as nat, i);
    assert(c.offset == left);
    assert(b[left] == moved_top(m[o], left, s.offset));
    assert(contents(m, o, 0).contains_key(key) == contents(m, s.offset, s.height).contains_key(
        key,
    ));
    assert(!has_key(b[left].keys, key)) by {
        assert(contents(m, o, 0).dom().contains(key) == has_key(m[o].keys, key));
    }
    lemma_leaf_put_ok(b, degree, c, (degree - 1) as nat, key, value);
    let over = leaf_with(b[left], key, value);
    assert(over == moved_top(leaf_with(m[o], key, value), left, s.offset));
    let part = contents(b, left, 0).insert(key, value);
    assert(over.keys.len() == degree) by {
        lemma_route(m[o].keys, key);
        m[o].keys.insert_ensures(route(m[o].keys, key), key);
    }
    lemma_split_from_put(b, b, degree, c, over, right, part);
    let md = divided(b, degree, c, over, right, mid);
    let sep = over.keys[mid];
    assert(child_split(b, md, degree, s, (degree - 1) as nat, i, sep, right, part));
    lemma_insert_changes(b, s, key, value);
    assert(contents(b, s.offset, s.height) == contents(m, s.offset, s.height));
    lemma_absorb_split(b, md, degree, s, (degree - 1) as nat, i, part, whole, sep, right);
    let top = absorbed(t, i, sep, right);
    let rh = right_half(over, mid, right);
    assert(rh.children =~= Seq::<u64>::empty());
    assert(reparented(b.insert(right, rh), rh.children, right) == b.insert(right, rh));
    assert(md.insert(s.offset, top) =~= hp.insert(s.offset, top));
    assert(hp.dom().contains(s.offset));
    lemma_put_same_top(b, md, hp, degree, s, top, degree, whole);
}

/// A change that a subtree has taken in has left every node outside the
/// subtree as it was.
pub proof fn lemma_put_outside<K: Index, V: Value>(
    b: Heap<K, V>,
    m2: Heap<K, V>,
    degree: nat,
    c: Slot<K>,
    top: NodeView<K, V>,
    room: nat,
    expected: Map<K, V>,
)
    requires
        put_ok(b, m2, degree, c, top, room, expected),
    ensures
        same_outside(b, m2, reach(b, c.offset, c.height)),
        b.dom().subset_of(m2.dom()),
{
    reveal(put_ok);
}

/// Two files that hold the same nodes where a well-formed subtree reaches
/// agree on its last leaf.
pub proof fn lemma_frame_last<K: Index, V: Value>(
    m: Heap<K, V>,
    m2: Heap<K, V>,
    degree: nat,
    s: Slot<K>,
    room: nat,
)
    requires
        shape_with(m, degree, s, room),
        same_inside(m, m2, reach(m, s.offset, s.height)),
    ensures
        last_leaf(m2, s.offset, s.height) == last_leaf(m, s.offset, s.height),
    decreases s.height,
{
    lemma_reach_top(m, s.offset, s.height);
    assert(m2[s.offset] == m[s.offset]);
    if s.height > 0 {
        let n = m[s.offset];
        let k = n.keys.len() as int;
        lemma_child(m, degree, s, room, k);
        lemma_reach_child(m, s.offset, s.height, k);
        assert(n.children.last() == n.children[k]);
        lemma_frame_last(m, m2, degree, child_slot(m, n, s, k), (degree - 1) as nat);
    }
}

/// Where the child on the way of a key has taken in a change that moved its
/// first leaf, the child before it is still the well-formed subtree that it
/// was, with the last leaf that it had, which the changed child does not
/// reach.
pub proof fn lemma_sibling_kept<K: Index, V: Value>(
    m: Heap<K, V>,
    m1: Heap<K, V>,
    degree: nat,
    s: Slot<K>,
    key: K,
    left: u64,
    top: NodeView<K, V>,
    room: nat,
    expected: Map<K, V>,
)
    requires
        shape_with(m, degree, s, (degree - 1) as nat),
        s.height >= 1,
        route(m[s.offset].keys, key) > 0,
        !m.dom().contains(left),
        left != 0,
        put_ok(
            with_leaf_moved(
                m,
                degree,
                m[s.offset].children[route(m[s.offset].keys, key)],
                (s.height - 1) as nat,
                key,
                left,
            ),
            m1,
            degree,
            child_slot(m, m[s.offset], s, route(m[s.offset].keys, key)),
            top,
            room,
            expected,
        ),
    ensures
        ({
            let n = m[s.offset];
            let i = route(n.keys, key);
            let h = (s.height - 1) as nat;
            let bc = with_leaf_moved(m, degree, n.children[i], h, key, left);
            let sl = child_slot(m, n, s, i - 1);
            let last = last_leaf(m, n.children[i - 1], h);
            &&& shape_with(m1, degree, sl, (degree - 1) as nat)
            &&& last_leaf(m1, n.children[i - 1], h) == last
            &&& m1.dom().contains(last)
            &&& m1[last] == m[last]
            &&& bc.dom().contains(last)
            &&& bc[last] == m[last]
            &&& !reach(bc, n.children[i], h).contains(last)
            &&& shape_with(bc, degree, child_slot(m, n, s, i), (degree - 1) as nat)
        }),
{
    let n = m[s.offset];
    let i = route(n.keys, key);
    let h = (s.height - 1) as nat;
    lemma_route(n.keys, key);
    lemma_shape_parts(m, degree, s, (degree - 1) as nat);
    let c = child_slot(m, n, s, i);
    let sl = child_slot(m, n, s, i - 1);
    let bc = with_leaf_moved(m, degree, n.children[i], h, key, left);
    lemma_child(m, degree, s, (degree - 1) as nat, i);
    lemma_child(m, degree, s, (degree - 1) as nat, i - 1);
    lemma_children_apart(m, degree, s, (degree - 1) as nat, i - 1, i);
    lemma_moved(m, degree, c, (degree - 1) as nat, key, left);
    lemma_put_outside(bc, m1, degree, c, top, room, expected);
    lemma_reach_dom(m, degree, sl, (degree - 1) as nat);
    lemma_relink_last(m, degree, sl, (degree - 1) as nat, left);
    assert(same_inside(m, m1, reach(m, sl.offset, sl.height))) by {
        assert forall|x: u64|
            #![trigger m1[x]]
            #![trigger m1.dom().contains(x)]
            reach(m, sl.offset, sl.height).contains(x) implies m1.dom().contains(x) && m1[x]
            == m[x] by {
            assert(m.dom().contains(x));
            assert(!reach(m, c.offset, c.height).contains(x));
            assert(bc.dom().contains(x) && bc[x] == m[x]);
            assert(!reach(bc, c.offset, c.height).contains(x));
        }
    }
    lemma_frame(m, m1, degree, sl, (degree - 1) as nat);
    lemma_frame_last(m, m1, degree, sl, (degree - 1) as nat);
    let last = last_leaf(m, n.children[i - 1], h);
    assert(reach(m, sl.offset, sl.height).contains(last));
    assert(bc.dom().contains(last) && bc[last] == m[last]);
}

/// The top node of a subtree that has taken in a change is in the file
/// after the change, where it was in the file before.
pub proof fn lemma_put_dom<K: Index, V: Value>(
    b: Heap<K, V>,
    m2: Heap<K, V>,
    degree: nat,
    c: Slot<K>,
    top: NodeView<K, V>,
    room: nat,
    expected: Map<K, V>,
)
    requires
        put_ok(b, m2, degree, c, top, room, expected),
        b.dom().contains(c.offset),
    ensures
        m2.dom().contains(c.offset),
{
    reveal(put_ok);
}

/// The last leaf below the child before the one on a key's way is neither
/// that child nor the node above.
pub proof fn lemma_sibling_apart<K: Index, V: Value>(
    m: Heap<K, V>,
    degree: nat,
    s: Slot<K>,
    key: K,
)
    requires
        shape_with(m, degree, s, (degree - 1) as nat),
        s.height >= 1,
        route(m[s.offset].keys, key) > 0,
    ensures
        ({
            let n = m[s.offset];
            let i = route(n.keys, key);
            let last = last_leaf(m, n.children[i - 1], (s.height - 1) as nat);
            &&& last != n.children[i]
            &&& last != s.offset
            &&& m.dom().contains(last)
        }),
{
    let n = m[s.offset];
    let i = route(n.keys, key);
    lemma_route(n.keys, key);
    lemma_shape_parts(m, degree, s, (degree - 1) as nat);
    lemma_child(m, degree, s, (degree - 1) as nat, i - 1);
    lemma_child(m, degree, s, (degree - 1) as nat, i);
    lemma_children_apart(m, degree, s, (degree - 1) as nat, i - 1, i);
    lemma_relink_last(m, degree, child_slot(m, n, s, i - 1), (degree - 1) as nat, 1);
    lemma_reach_top(m, n.children[i], (s.height - 1) as nat);
}

/// What the level that puts a key in needs to know of the file with the
/// key's full leaf moved: the subtree is well-formed there and holds what it
/// held, and above the level next to the leaves the top node and the slot of
/// the child on the key's way are what they were.
pub open spec fn moved_base<K: Index, V: Value>(
    m: Heap<K, V>,
    degree: nat,
    s: Slot<K>,
    key: K,
    left: u64,
) -> bool {
    let b = with_leaf_moved(m, degree, s.offset, s.height, key, left);
    let n = m[s.offset];
    let i = route(n.keys, key);
    &&& shape_with(b, degree, s, (degree - 1) as nat)
    &&& contents(b, s.offset, s.height) == contents(m, s.offset, s.height)
    &&& b.dom().contains(s.offset)
    &&& b[s.offset].keys == n.keys
    &&& s.height != 1 ==> b[s.offset] == n
    &&& first_moves(m, degree, s.offset, s.height, key) ==> leaf_divides(
        m,
        degree,
        s.offset,
        s.height,
        key,
    )
    &&& !leaf_divides(m, degree, s.offset, s.height, key) ==> b == m
    &&& s.height >= 2 ==> child_slot(b, n, s, i) == child_slot(m, n, s, i) && contents(
        b,
        n.children[i],
        (s.height - 1) as nat,
    ) == contents(m, n.children[i], (s.height - 1) as nat)
}

/// The file with the full leaf of a key moved is a base for putting the key
/// in.
pub proof fn lemma_moved_base<K: Index, V: Value>(
    m: Heap<K, V>,
    degree: nat,
    s: Slot<K>,
    key: K,
    left: u64,
)
    requires
        shape_with(m, degree, s, (degree - 1) as nat),
        !m.dom().contains(left),
        left != 0,
    ensures
        moved_base(m, degree, s, key, left),
{
    lemma_moved(m, degree, s, (degree - 1) as nat, key, left);
}

} // verus!
