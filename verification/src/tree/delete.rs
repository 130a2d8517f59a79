//! Taking a key out of a subtree.

use vstd::prelude::*;
use crate::error::Error;
use crate::fm::nodes::NodeFile;
use crate::index::Index;
use crate::nodes::io::{
    exact_kept, heap, lemma_heap_after_write, lemma_node_encoding_parts, node_at, Heap,
};
use crate::nodes::Node;
use crate::tree::absorb::{
    changed_in, child_put, lemma_absorb_put, lemma_put_top, lemma_put_written,
    lemma_remove_changes, put_ok,
};
use crate::nodes::crud::{lemma_route, position, route};
use crate::tree::reparent::lemma_child;
use crate::tree::rebuild::enough;
use crate::tree::divide::{left_half, right_half};
use crate::tree::insert::{
    file_ok, halved, halving_writes, place_node, placeable, written_last,
};
use crate::tree::merge::{joined_slot, lemma_joined_shape};
use crate::tree::merge::{lemma_joined_child, lemma_joined_nodes, lemma_loose_child, merged};
use crate::tree::rebuild::lemma_shape_parts;
use crate::tree::reparent::{reparent_children, reparented};
use crate::tree::shape::{child_slot, contents, in_range, leaf_of, shape, shape_with, Slot};
use crate::tree::shrink::{
    child_took, leaf_without, lemma_absorb_join, lemma_absorb_rotate, lemma_leaf_took,
    lemma_pair_ready, lemma_put_from_took, lemma_rotate_ready, lemma_took_child,
    lemma_took_from_put, lemma_took_top, lemma_took_written, pair_joined, pair_node, pair_rotated,
    pairing, rotated, rotating, took_ok, without,
};
use crate::value::Value;

verus! {

/// Whether `under` is a node read from the file and changed in memory, for
/// the top of slot `c`.
pub open spec fn lacking<K: Index, V: Value>(under: Node<K, V>, degree: nat, c: Slot<K>) -> bool {
    &&& under.degree == degree
    &&& under.offset == c.offset
    &&& under.node_type.normal() == under.node_type
}

/// Whether child `i` of `parent`, the top node of slot `s`, has taken in a
/// change and been handed back as `under`, with fewer keys than the least,
/// to be set right with the help of a neighbour.
pub open spec fn lacks<K: Index, V: Value>(
    m: Heap<K, V>,
    file: NodeFile,
    degree: nat,
    s: Slot<K>,
    parent: Node<K, V>,
    i: int,
    under: Node<K, V>,
    part: Map<K, V>,
) -> bool {
    let c = child_slot(m, m[s.offset], s, i);
    &&& file_ok::<K, V>(file, degree)
    &&& parent@ == m[s.offset]
    &&& parent.degree == degree
    &&& shape_with(m, degree, s, (degree - 1) as nat)
    &&& s.height > 0
    &&& 0 <= i < parent.children@.len()
    &&& lacking(under, degree, c)
    &&& heap::<K, V>(file, degree).dom().contains(c.offset)
    &&& took_ok(m, heap::<K, V>(file, degree), degree, c, under@, (degree - 1) as nat, part)
}

/// The index of the left one of the two neighbours that set child `i` right:
/// the child before it and itself, or itself and the child behind it where
/// it is the first.
pub open spec fn pair_index(i: int) -> int {
    if i > 0 {
        i - 1
    } else {
        0
    }
}

/// What is known once two neighbours stand in memory as one node.
pub open spec fn paired<K: Index, V: Value>(
    m: Heap<K, V>,
    file0: NodeFile,
    degree: nat,
    s: Slot<K>,
    i: int,
    under: Node<K, V>,
    part: Map<K, V>,
    file: NodeFile,
    one: Node<K, V>,
    right: u64,
) -> bool {
    let n = m[s.offset];
    let a = pair_index(i);
    let m2 = heap::<K, V>(file0, degree);
    let mx = m2.insert(under.offset, under@);
    &&& pairing(m, mx, degree, s, (degree - 1) as nat, i, part, a)
    &&& under.offset == n.children[i]
    &&& file.pages@.len() == file0.pages@.len()
    &&& file.journal@ == file0.journal@ + mx[n.children[a + 1]].children
    &&& exact_kept::<K, V>(file0, file, degree)
    &&& heap::<K, V>(file, degree) == reparented(m2, mx[n.children[a + 1]].children, n.children[a])
    &&& heap::<K, V>(file, degree).dom() == m2.dom()
    &&& m2.dom() == mx.dom()
    &&& one@ == pair_node(m, mx, s, a)
    &&& one.offset == n.children[a]
    &&& one.degree == degree
    &&& one.is_dirty
    &&& one.node_type.normal() == one.node_type
    &&& right == n.children[a + 1]
}

/// Reads the neighbour that is to help the node that lacks keys, tells the
/// children of the right one of the two that their parent is the left one,
/// and makes the two one node in memory. Returns that node and the offset of
/// the right one.
pub fn join_pair<K: Index, V: Value>(
    file: &mut NodeFile,
    degree: usize,
    parent: &Node<K, V>,
    i: usize,
    under: Node<K, V>,
    Ghost(m): Ghost<Heap<K, V>>,
    Ghost(s): Ghost<Slot<K>>,
    Ghost(part): Ghost<Map<K, V>>,
) -> (r: Result<(Node<K, V>, u64), Error>)
    requires
        old(file).wf(),
    ensures
        final(file).wf(),
        final(file).page_size == old(file).page_size,
        final(file).pages@.len() >= old(file).pages@.len(),
        r matches Ok((one, right)) ==> (one@.is_leaf() ==> one.values@.len() == one.keys@.len())
            && (!one@.is_leaf() ==> one.children@.len() == one.keys@.len() + 1) && pair_index(
            i as int,
        ) < parent.keys@.len() && parent.children@.len() == parent.keys@.len() + 1,
        lacks(m, *old(file), degree as nat, s, *parent, i as int, under, part) ==> r is Ok
            && paired(
            m,
            *old(file),
            degree as nat,
            s,
            i as int,
            under,
            part,
            *final(file),
            r->Ok_0.0,
            r->Ok_0.1,
        ),
{
    let ghost file0 = *file;
    let ghost m2 = heap::<K, V>(*file, degree as nat);
    let ghost good = lacks(m, *file, degree as nat, s, *parent, i as int, under, part);
    let ghost n = m[s.offset];
    let ghost c = child_slot(m, n, s, i as int);
    let ghost a = pair_index(i as int);
    let ghost mx = m2.insert(under.offset, under@);
    proof {
        if good {
            lemma_took_top(m, m2, degree as nat, c, under@, (degree - 1) as nat, part);
            lemma_took_written(m, m2, degree as nat, c, under@, (degree - 1) as nat, part);
            assert(child_took(m, mx, degree as nat, s, (degree - 1) as nat, i as int, part));
            lemma_shape_parts(m, degree as nat, s, (degree - 1) as nat);
            lemma_took_child(m, mx, degree as nat, s, (degree - 1) as nat, i as int, part, a);
            lemma_took_child(m, mx, degree as nat, s, (degree - 1) as nat, i as int, part, a + 1);
            lemma_pair_ready(m, mx, degree as nat, s, (degree - 1) as nat, i as int, part, a);
            assert(mx.dom() =~= m2.dom());
        }
    }
    if parent.children.len() < 2 || i >= parent.children.len() || parent.keys.len()
        != parent.children.len() - 1 {
        return Err(Error::Encoding);
    }
    let sibling_at: usize = if i > 0 { i - 1 } else { 1 };
    let sibling = match Node::<K, V>::read(file, parent.children[sibling_at], degree) {
        Ok(node) => node,
        Err(e) => {
            return Err(e);
        },
    };
    let left_at: usize = if i > 0 { i - 1 } else { 0 };
    let separator = parent.keys[left_at];
    let (mut left, right) = if i > 0 {
        (sibling, under)
    } else {
        (under, sibling)
    };
    if left.is_leaf() != right.is_leaf() {
        return Err(Error::Encoding);
    }
    if left.is_leaf() {
        if left.values.len() != left.keys.len() || right.values.len() != right.keys.len() {
            return Err(Error::Encoding);
        }
    } else {
        if left.children.len() == 0 || left.children.len() - 1 != left.keys.len()
            || right.children.len() == 0 || right.children.len() - 1 != right.keys.len() {
            return Err(Error::Encoding);
        }
    }
    let right_offset = right.offset;
    proof {
        if good {
            let sl = child_slot(m, n, s, a);
            let sr = child_slot(m, n, s, a + 1);
            assert(left@ == mx[n.children[a]]);
            assert(right@ == mx[n.children[a + 1]]);
            lemma_joined_nodes(mx, degree as nat, sl, sr, n.keys[a]);
            assert forall|j: int| 0 <= j < right.children@.len() implies heap::<K, V>(
                *file,
                degree as nat,
            ).dom().contains(#[trigger] right.children@[j]) by {
                lemma_loose_child(mx, degree as nat, sr, (degree - 1) as nat, j);
                crate::tree::frame::lemma_reach_top(
                    mx,
                    right.children@[j],
                    (s.height - 2) as nat,
                );
                assert(mx.dom().contains(right.children@[j]));
            }
        }
    }
    match reparent_children::<K, V>(file, degree, &right.children, left.offset) {
        Ok(()) => {},
        Err(e) => {
            return Err(e);
        },
    }
    let ghost before = left@;
    left.absorb_right(separator, right);
    proof {
        if good {
            let t = merged(before, separator, mx[n.children[a + 1]]);
            assert(left@.keys =~= t.keys);
            assert(left@.values =~= t.values);
            assert(left@.children =~= t.children);
            assert(left@ == t);
            crate::tree::reparent::lemma_reparented_dom(
                m2,
                mx[n.children[a + 1]].children,
                n.children[a],
            );
        }
    }
    Ok((left, right_offset))
}

/// The children of two neighbours made one are in the file, at other
/// offsets than the two.
pub proof fn lemma_pair_children<K: Index, V: Value>(
    m: Heap<K, V>,
    mx: Heap<K, V>,
    degree: nat,
    s: Slot<K>,
    i: int,
    part: Map<K, V>,
    a: int,
)
    requires
        pairing(m, mx, degree, s, (degree - 1) as nat, i, part, a),
        s.height > 1,
    ensures
        forall|j: int|
            0 <= j < pair_node(m, mx, s, a).children.len() ==> mx.dom().contains(
                #[trigger] pair_node(m, mx, s, a).children[j],
            ) && pair_node(m, mx, s, a).children[j] != m[s.offset].children[a] && pair_node(
                m,
                mx,
                s,
                a,
            ).children[j] != m[s.offset].children[a + 1],
{
    let n = m[s.offset];
    let sl = child_slot(m, n, s, a);
    let sr = child_slot(m, n, s, a + 1);
    let t = pair_node(m, mx, s, a);
    lemma_pair_ready(m, mx, degree, s, (degree - 1) as nat, i, part, a);
    lemma_took_child(m, mx, degree, s, (degree - 1) as nat, i, part, a);
    lemma_took_child(m, mx, degree, s, (degree - 1) as nat, i, part, a + 1);
    assert forall|j: int| 0 <= j < t.children.len() implies mx.dom().contains(
        #[trigger] t.children[j],
    ) && t.children[j] != n.children[a] && t.children[j] != n.children[a + 1] by {
        lemma_joined_child(mx, degree, sl, sr, n.keys[a], j);
        crate::tree::merge::lemma_loose_reach(mx, degree, sl, (degree - 1) as nat);
        crate::tree::merge::lemma_loose_reach(mx, degree, sr, (degree - 1) as nat);
    }
}

/// The file after two neighbours that stand in memory as the one node `one`
/// were set right: `one` is written where the left one stood if it fits a
/// page, and else divided in the middle, the right half going to `right`,
/// where the right neighbour stood.
pub open spec fn set_right<K, V>(
    base: Heap<K, V>,
    degree: nat,
    one: crate::nodes::NodeView<K, V>,
    right: u64,
) -> Heap<K, V> {
    if one.keys.len() < degree {
        base.insert(one.offset, one)
    } else {
        halved(base, one.offset, one, right, (one.keys.len() / 2) as int)
    }
}

/// The records written, in the order of the writes, when two neighbours that
/// stand in memory as the one node `one` are set right: the one node, or the
/// children handed over, the right half and then the left half.
pub open spec fn set_right_writes<K, V>(
    degree: nat,
    one: crate::nodes::NodeView<K, V>,
    right: u64,
) -> Seq<u64> {
    if one.keys.len() < degree {
        seq![one.offset]
    } else {
        halving_writes(one, one.offset, right, (one.keys.len() / 2) as int)
    }
}

/// The node above two neighbours, the children `a` and `a + 1`, once they
/// were set right: without their separator and the right neighbour where the
/// two became the one node `one`, and with the key at the middle index of
/// `one` for their separator where they shared out what they hold.
pub open spec fn above_pair<K, V>(
    n: crate::nodes::NodeView<K, V>,
    degree: nat,
    a: int,
    one: crate::nodes::NodeView<K, V>,
) -> crate::nodes::NodeView<K, V> {
    if one.keys.len() < degree {
        without(n, a)
    } else {
        rotated(n, a, one.keys[(one.keys.len() / 2) as int])
    }
}

/// Sets right two neighbours that stand in memory as one node. Where the one
/// node fits a page it is written where the left neighbour stood, and the
/// node above loses their separator and the right neighbour. Otherwise the
/// one node is divided in the middle: the halves are written where the two
/// stood, the right one first, and the node above gets the new separator.
#[verifier::rlimit(40)]
pub fn settle_pair<K: Index, V: Value>(
    file: &mut NodeFile,
    degree: usize,
    parent: &mut Node<K, V>,
    i: usize,
    one: Node<K, V>,
    right: u64,
    Ghost(m): Ghost<Heap<K, V>>,
    Ghost(s): Ghost<Slot<K>>,
    Ghost(part): Ghost<Map<K, V>>,
    Ghost(whole): Ghost<Map<K, V>>,
    Ghost(file0): Ghost<NodeFile>,
    Ghost(under): Ghost<Node<K, V>>,
) -> (r: Result<(), Error>)
    requires
        old(file).wf(),
        one@.is_leaf() ==> one.values@.len() == one.keys@.len(),
        !one@.is_leaf() ==> one.children@.len() == one.keys@.len() + 1,
        pair_index(i as int) < old(parent).keys@.len(),
        old(parent).children@.len() == old(parent).keys@.len() + 1,
    ensures
        final(file).wf(),
        final(file).page_size == old(file).page_size,
        final(file).pages@.len() >= old(file).pages@.len(),
        final(parent).degree == old(parent).degree,
        final(parent).offset == old(parent).offset,
        final(parent).node_type == old(parent).node_type,
        file_ok::<K, V>(*old(file), degree as nat) && paired(
            m,
            file0,
            degree as nat,
            s,
            i as int,
            under,
            part,
            *old(file),
            one,
            right,
        ) && old(parent)@ == m[s.offset] && changed_in(m, s, i as int, part, whole) ==> {
            &&& r is Ok
            &&& final(file).pages@.len() == old(file).pages@.len()
            &&& heap::<K, V>(*final(file), degree as nat) == set_right(
                heap::<K, V>(*old(file), degree as nat),
                degree as nat,
                one@,
                right,
            )
            &&& final(parent)@ == above_pair(
                old(parent)@,
                degree as nat,
                pair_index(i as int),
                one@,
            )
            &&& final(file).journal@ == old(file).journal@ + set_right_writes(
                degree as nat,
                one@,
                right,
            )
            &&& exact_kept::<K, V>(*old(file), *final(file), degree as nat)
            &&& heap::<K, V>(*final(file), degree as nat).dom().contains(s.offset)
            &&& took_ok(
                m,
                heap::<K, V>(*final(file), degree as nat),
                degree as nat,
                s,
                final(parent)@,
                (degree - 1) as nat,
                whole,
            )
        },
{
    let ghost file1 = *file;
    let ghost n = m[s.offset];
    let ghost a = pair_index(i as int);
    let ghost m2 = heap::<K, V>(file0, degree as nat);
    let ghost mx = m2.insert(under.offset, under@);
    let ghost xr = heap::<K, V>(*file, degree as nat);
    let ghost x = xr.insert(under.offset, under@);
    let ghost good = file_ok::<K, V>(*file, degree as nat) && paired(
        m,
        file0,
        degree as nat,
        s,
        i as int,
        under,
        part,
        *file,
        one,
        right,
    ) && parent@ == n && changed_in(m, s, i as int, part, whole);
    let ghost sl = child_slot(m, n, s, a);
    let ghost sr = child_slot(m, n, s, a + 1);
    let ghost whole_node = one@;
    let mut one = one;
    let left_at: usize = if i > 0 { i - 1 } else { 0 };
    let total = one.keys.len();
    proof {
        if good {
            lemma_pair_ready(m, mx, degree as nat, s, (degree - 1) as nat, i as int, part, a);
            lemma_took_child(m, mx, degree as nat, s, (degree - 1) as nat, i as int, part, a);
            lemma_took_child(m, mx, degree as nat, s, (degree - 1) as nat, i as int, part, a + 1);
            lemma_joined_shape(mx, degree as nat, sl, sr, n.keys[a]);
            if s.height > 1 {
                lemma_pair_children(m, mx, degree as nat, s, i as int, part, a);
            } else {
                lemma_shape_parts(mx, degree as nat, sr, (degree - 1) as nat);
                assert(mx[sr.offset].children =~= Seq::<u64>::empty());
            }
            assert(!mx[sr.offset].children.contains(under.offset)) by {
                if mx[sr.offset].children.contains(under.offset) {
                    let j = choose|j: int|
                        0 <= j < mx[sr.offset].children.len() && mx[sr.offset].children[j]
                            == under.offset;
                    lemma_loose_child(mx, degree as nat, sr, (degree - 1) as nat, j);
                    crate::tree::merge::lemma_loose_apart_from(
                        mx,
                        degree as nat,
                        sl,
                        sr,
                        n.keys[a],
                        j,
                    );
                }
            }
            crate::tree::reparent::lemma_reparented_skip(
                m2,
                under.offset,
                under@,
                mx[sr.offset].children,
                sl.offset,
            );
            assert(x == reparented(mx, mx[sr.offset].children, sl.offset));
            lemma_shape_parts(
                x.insert(sl.offset, whole_node),
                degree as nat,
                joined_slot(sl, sr),
                whole_node.keys.len(),
            );
            lemma_shape_parts(mx, degree as nat, sl, (degree - 1) as nat);
            lemma_shape_parts(mx, degree as nat, sr, (degree - 1) as nat);
            assert(node_at::<K, V>(file1, degree as nat, sl.offset) is Some);
            assert(node_at::<K, V>(file1, degree as nat, sr.offset) is Some);
            if s.height > 1 {
                lemma_pair_children(m, mx, degree as nat, s, i as int, part, a);
            }
        }
    }
    if total < degree {
        proof {
            if good {
                lemma_node_encoding_parts::<K, V>(one@, degree as nat);
                assert(one.writable(*file));
            }
        }
        match one.write(file) {
            Ok(_) => {},
            Err(e) => {
                return Err(e);
            },
        }
        parent.keys.remove(left_at);
        parent.children.remove(left_at + 1);
        parent.set_dirty();
        proof {
            if good {
                lemma_heap_after_write::<K, V>(file1, *file, one@, degree as nat);
                let now = heap::<K, V>(*file, degree as nat);
                let mj = pair_joined(m, mx, s, a);
                assert(mj == x.insert(sl.offset, one@));
                assert(parent@.keys =~= without(n, a).keys);
                assert(parent@.children =~= without(n, a).children);
                assert(parent@ == without(n, a));
                assert(now == set_right(xr, degree as nat, whole_node, right));
                assert(file.journal@ =~= file1.journal@ + set_right_writes(
                    degree as nat,
                    whole_node,
                    right,
                ));
                lemma_absorb_join(
                    m,
                    mx,
                    degree as nat,
                    s,
                    (degree - 1) as nat,
                    i as int,
                    part,
                    whole,
                    a,
                );
                if under.offset == sl.offset {
                    assert(now =~= mj);
                } else {
                    assert(mj =~= now.insert(sr.offset, under@));
                    crate::tree::shrink::lemma_join_orphan(
                        m,
                        mx,
                        degree as nat,
                        s,
                        (degree - 1) as nat,
                        i as int,
                        part,
                        a,
                    );
                    lemma_took_child(
                        m,
                        mx,
                        degree as nat,
                        s,
                        (degree - 1) as nat,
                        i as int,
                        part,
                        a + 1,
                    );
                    crate::tree::frame::lemma_reach_top(m, sr.offset, (s.height - 1) as nat);
                    crate::tree::shrink::lemma_took_without(
                        m,
                        mj,
                        now,
                        degree as nat,
                        s,
                        parent@,
                        (degree - 1) as nat,
                        whole,
                        sr.offset,
                    );
                }
            }
        }
        Ok(())
    } else {
        if total == 0 {
            return Err(Error::Encoding);
        }
        let mid = total / 2;
        let (separator, mut moved) = one.divide_at(mid, right);
        proof {
            if good {
                assert(rotating(
                    m,
                    mx,
                    degree as nat,
                    s,
                    (degree - 1) as nat,
                    i as int,
                    part,
                    a,
                    mid as int,
                ));
                lemma_rotate_ready(
                    m,
                    mx,
                    degree as nat,
                    s,
                    (degree - 1) as nat,
                    i as int,
                    part,
                    a,
                    mid as int,
                );
                let rh = right_half(whole_node, mid as int, right);
                let lh = left_half(whole_node, mid as int, right);
                assert(moved@.keys =~= rh.keys);
                assert(moved@.values =~= rh.values);
                assert(moved@.children =~= rh.children);
                assert(moved@ == rh);
                assert(one@.keys =~= lh.keys);
                assert(one@.values =~= lh.values);
                assert(one@.children =~= lh.children);
                assert(one@ == lh);
                lemma_node_encoding_parts::<K, V>(moved@, degree as nat);
                assert(moved.writable(*file));
                assert(placeable(moved, *file));
            }
        }
        match place_node(file, &mut moved) {
            Ok(()) => {},
            Err(e) => {
                return Err(e);
            },
        }
        let ghost file2 = *file;
        proof {
            if good {
                assert(heap::<K, V>(file2, degree as nat).dom().contains(sl.offset));
                assert(node_at::<K, V>(file2, degree as nat, sl.offset) is Some);
                lemma_node_encoding_parts::<K, V>(one@, degree as nat);
                assert(one.writable(*file));
            }
        }
        match one.write(file) {
            Ok(_) => {},
            Err(e) => {
                return Err(e);
            },
        }
        parent.keys[left_at] = separator;
        parent.set_dirty();
        proof {
            if good {
                lemma_heap_after_write::<K, V>(file2, *file, one@, degree as nat);
                if under.offset == sr.offset {
                    assert(x.insert(sr.offset, moved@) =~= xr.insert(sr.offset, moved@));
                } else {
                    assert(x.insert(sr.offset, moved@) =~= xr.insert(sr.offset, moved@).insert(
                        sl.offset,
                        under@,
                    ));
                    crate::tree::reparent::lemma_reparented_skip(
                        xr.insert(sr.offset, moved@),
                        sl.offset,
                        under@,
                        moved@.children,
                        sr.offset,
                    );
                    let base = reparented(xr.insert(sr.offset, moved@), moved@.children, sr.offset);
                    assert(base.insert(sl.offset, under@).insert(sl.offset, one@) =~= base.insert(
                        sl.offset,
                        one@,
                    ));
                }
                assert(heap::<K, V>(*file, degree as nat) == pair_rotated(
                    m,
                    mx,
                    degree as nat,
                    s,
                    a,
                    mid as int,
                ));
                assert(parent@.keys =~= rotated(n, a, separator).keys);
                assert(parent@ == rotated(n, a, separator));
                assert(separator == whole_node.keys[mid as int]);
                assert(file.journal@ =~= file1.journal@ + set_right_writes(
                    degree as nat,
                    whole_node,
                    right,
                ));
                assert(heap::<K, V>(*file, degree as nat) == halved(
                    xr,
                    sl.offset,
                    whole_node,
                    right,
                    mid as int,
                ));
                lemma_absorb_rotate(
                    m,
                    mx,
                    degree as nat,
                    s,
                    (degree - 1) as nat,
                    i as int,
                    part,
                    whole,
                    a,
                    mid as int,
                );
                lemma_took_from_put(
                    m,
                    heap::<K, V>(*file, degree as nat),
                    degree as nat,
                    s,
                    parent@,
                    (degree - 1) as nat,
                    whole,
                );
            }
        }
        Ok(())
    }
}

/// What a removal from the subtree of slot `s` comes to, once the node at
/// its top has been dealt with: the top node stands in the file, or it is
/// handed back with fewer keys than the least.
pub open spec fn taken_out<K: Index, V: Value>(
    m: Heap<K, V>,
    m2: Heap<K, V>,
    degree: nat,
    s: Slot<K>,
    outcome: Option<Node<K, V>>,
    expected: Map<K, V>,
) -> bool {
    &&& m2.dom().contains(s.offset)
    &&& match outcome {
        None => put_ok(m, m2, degree, s, m2[s.offset], (degree - 1) as nat, expected),
        Some(under) => lacking(under, degree, s) && !enough(under@, degree, s) && took_ok(
            m,
            m2,
            degree,
            s,
            under@,
            (degree - 1) as nat,
            expected,
        ),
    }
}

/// Whether the node `top` at `offset` has fewer keys than the least and is
/// handed to the level above: a leaf other than the root with fewer than half
/// the degree, rounded down, and an internal node with none.
pub open spec fn lacks_keys<K, V>(
    top: crate::nodes::NodeView<K, V>,
    degree: nat,
    offset: u64,
    height: nat,
) -> bool {
    if height == 0 {
        offset != 0 && top.keys.len() < degree / 2
    } else {
        top.keys.len() == 0
    }
}

/// The one node that child `i` of `n`, handed back as `under`, and the
/// neighbour that helps it make: the child before it and itself, or itself
/// and the child behind it where it is the first. In the file `m2` the other
/// nodes stand as they are; `under` has not been written.
pub open spec fn pair_of<K, V>(
    m2: Heap<K, V>,
    n: crate::nodes::NodeView<K, V>,
    i: int,
    under: crate::nodes::NodeView<K, V>,
) -> crate::nodes::NodeView<K, V> {
    let a = pair_index(i);
    let mx = m2.insert(n.children[i], under);
    merged(mx[n.children[a]], n.keys[a], mx[n.children[a + 1]])
}

/// The file `m2` once the children of the right one of the two neighbours
/// were told that their parent is the left one.
pub open spec fn pair_base<K, V>(
    m2: Heap<K, V>,
    n: crate::nodes::NodeView<K, V>,
    i: int,
    under: crate::nodes::NodeView<K, V>,
) -> Heap<K, V> {
    let a = pair_index(i);
    let mx = m2.insert(n.children[i], under);
    reparented(m2, mx[n.children[a + 1]].children, n.children[a])
}

/// The node at `offset` once `key` is out of its subtree, before it is
/// looked at for keys enough: a leaf without the pair; an internal node as
/// the neighbours below it leave it where the child on the key's way was
/// handed back, and as it was where that child was not.
pub open spec fn shrunk_top<K: Index, V: Value>(
    m: Heap<K, V>,
    degree: nat,
    offset: u64,
    height: nat,
    key: K,
) -> crate::nodes::NodeView<K, V>
    decreases height,
{
    let n = m[offset];
    if height == 0 {
        leaf_without(n, position(n.keys, key))
    } else {
        let i = route(n.keys, key);
        let under = shrunk_top(m, degree, n.children[i], (height - 1) as nat, key);
        if lacks_keys(under, degree, n.children[i], (height - 1) as nat) {
            above_pair(
                n,
                degree,
                pair_index(i),
                pair_of(
                    shrunk_below(m, degree, n.children[i], (height - 1) as nat, key),
                    n,
                    i,
                    under,
                ),
            )
        } else {
            n
        }
    }
}

/// The file once `key` is out of the subtree at `offset` and every node
/// below the node at `offset` has been dealt with: the child on the key's way
/// is written where it has keys enough, and set right with a neighbour where
/// it has not, after the same was done below it.
pub open spec fn shrunk_below<K: Index, V: Value>(
    m: Heap<K, V>,
    degree: nat,
    offset: u64,
    height: nat,
    key: K,
) -> Heap<K, V>
    decreases height,
{
    if height == 0 {
        m
    } else {
        let n = m[offset];
        let i = route(n.keys, key);
        let below = shrunk_below(m, degree, n.children[i], (height - 1) as nat, key);
        let under = shrunk_top(m, degree, n.children[i], (height - 1) as nat, key);
        if lacks_keys(under, degree, n.children[i], (height - 1) as nat) {
            set_right(
                pair_base(below, n, i, under),
                degree,
                pair_of(below, n, i, under),
                n.children[pair_index(i) + 1],
            )
        } else {
            below.insert(n.children[i], under)
        }
    }
}

/// The children of the right one of the two neighbours that set child `i`
/// of `n` right: they are told of their new parent before the two are set
/// right.
pub open spec fn pair_handed<K, V>(
    m2: Heap<K, V>,
    n: crate::nodes::NodeView<K, V>,
    i: int,
    under: crate::nodes::NodeView<K, V>,
) -> Seq<u64> {
    m2.insert(n.children[i], under)[n.children[pair_index(i) + 1]].children
}

/// The records written, in the order of the writes, before the node at
/// `offset` is dealt with: what is written below the child on the key's way,
/// and what setting that child right takes where it lacks keys.
pub open spec fn erasing_below<K: Index, V: Value>(
    m: Heap<K, V>,
    degree: nat,
    offset: u64,
    height: nat,
    key: K,
) -> Seq<u64>
    decreases height, 0nat,
{
    if height == 0 {
        Seq::empty()
    } else {
        let n = m[offset];
        let i = route(n.keys, key);
        let below = shrunk_below(m, degree, n.children[i], (height - 1) as nat, key);
        let under = shrunk_top(m, degree, n.children[i], (height - 1) as nat, key);
        let first = erasing(m, degree, n.children[i], (height - 1) as nat, key);
        if lacks_keys(under, degree, n.children[i], (height - 1) as nat) {
            first + pair_handed(below, n, i, under) + set_right_writes(
                degree,
                pair_of(below, n, i, under),
                n.children[pair_index(i) + 1],
            )
        } else {
            first
        }
    }
}

/// The records written, in the order of the writes, when `key` is taken out
/// of the subtree at `offset`. A node is written after every node below it:
/// the node at `offset` comes last, where it has changed and is not handed
/// to the level above.
pub open spec fn erasing<K: Index, V: Value>(
    m: Heap<K, V>,
    degree: nat,
    offset: u64,
    height: nat,
    key: K,
) -> Seq<u64>
    decreases height, 1nat,
{
    let below = erasing_below(m, degree, offset, height, key);
    let n = m[offset];
    let child = n.children[route(n.keys, key)];
    let changed = height == 0 || lacks_keys(
        shrunk_top(m, degree, child, (height - 1) as nat, key),
        degree,
        child,
        (height - 1) as nat,
    );
    if changed && !lacks_keys(shrunk_top(m, degree, offset, height, key), degree, offset, height) {
        below.push(offset)
    } else {
        below
    }
}

/// The file once `key` is out of the subtree at `offset`, but for the node
/// at `offset` itself where that lacks keys: it is then handed to the level
/// above.
pub open spec fn shrunk<K: Index, V: Value>(
    m: Heap<K, V>,
    degree: nat,
    offset: u64,
    height: nat,
    key: K,
) -> Heap<K, V> {
    if lacks_keys(shrunk_top(m, degree, offset, height, key), degree, offset, height) {
        shrunk_below(m, degree, offset, height, key)
    } else {
        shrunk_below(m, degree, offset, height, key).insert(
            offset,
            shrunk_top(m, degree, offset, height, key),
        )
    }
}

/// Whether the leaf that `key` belongs to in the subtree at `offset` has keys
/// enough once it gives the key up: it is the root, or it holds more keys
/// than half the degree, rounded down.
pub open spec fn leaf_keeps<K: Index, V: Value>(
    m: Heap<K, V>,
    degree: nat,
    offset: u64,
    height: nat,
    key: K,
) -> bool {
    let leaf = leaf_of(m, offset, height, key);
    leaf == 0 || m[leaf].keys.len() > degree / 2
}

/// The file once the leaf that `key` belongs to in the subtree at `offset`
/// has given up the key and its value: no other node has changed.
pub open spec fn leaf_taken<K: Index, V: Value>(
    m: Heap<K, V>,
    offset: u64,
    height: nat,
    key: K,
) -> Heap<K, V> {
    let leaf = leaf_of(m, offset, height, key);
    m.insert(leaf, leaf_without(m[leaf], position(m[leaf].keys, key)))
}

/// Takes `key` out of the subtree at `offset`.
///
/// The way leads down to the leaf that the key belongs to, which gives the
/// pair up. A node that is left with fewer keys than the least, a leaf other
/// than the root with fewer than half the degree, rounded down, and an
/// internal node with none, is handed back to the level above. There it is
/// set right with the help of the neighbour before it, or behind it where it
/// is the first child: the two are made one node where that fits a page, and
/// share out what they hold where it does not. A node that has changed and
/// holds keys enough is written. The node at `offset` itself is handed back
/// where it lacks keys.
///
/// A key that is not in the subtree is reported as not found before
/// anything is written.
#[verifier::rlimit(40)]
pub fn remove_from<K: Index, V: Value>(
    file: &mut NodeFile,
    degree: usize,
    offset: u64,
    height: usize,
    key: K,
    Ghost(s): Ghost<Slot<K>>,
) -> (r: Result<Option<Node<K, V>>, Error>)
    requires
        old(file).wf(),
    ensures
        final(file).wf(),
        final(file).page_size == old(file).page_size,
        final(file).pages@.len() >= old(file).pages@.len(),
        file_ok::<K, V>(*old(file), degree as nat) && shape(
            heap::<K, V>(*old(file), degree as nat),
            degree as nat,
            s,
        ) && s.offset == offset && s.height == height && in_range(key, s.low, s.high) ==> {
            let m = heap::<K, V>(*old(file), degree as nat);
            if contents(m, offset, height as nat).contains_key(key) {
                &&& r is Ok
                &&& final(file).pages@.len() == old(file).pages@.len()
                &&& r->Ok_0 is Some == lacks_keys(
                    shrunk_top(m, degree as nat, offset, height as nat, key),
                    degree as nat,
                    offset,
                    height as nat,
                )
                &&& r->Ok_0 matches Some(under) ==> under@ == shrunk_top(
                    m,
                    degree as nat,
                    offset,
                    height as nat,
                    key,
                )
                &&& heap::<K, V>(*final(file), degree as nat) == shrunk(
                    m,
                    degree as nat,
                    offset,
                    height as nat,
                    key,
                )
                &&& final(file).journal@ == old(file).journal@ + erasing(
                    m,
                    degree as nat,
                    offset,
                    height as nat,
                    key,
                )
                &&& exact_kept::<K, V>(*old(file), *final(file), degree as nat)
                &&& leaf_keeps(m, degree as nat, offset, height as nat, key) ==> {
                    &&& r->Ok_0 is None
                    &&& heap::<K, V>(*final(file), degree as nat) == leaf_taken(
                        m,
                        offset,
                        height as nat,
                        key,
                    )
                    &&& final(file).journal@ == old(file).journal@.push(
                        leaf_of(m, offset, height as nat, key),
                    )
                }
                &&& r->Ok_0 is None ==> written_last(
                    m,
                    heap::<K, V>(*final(file), degree as nat),
                    *final(file),
                    offset,
                )
                &&& taken_out(
                    m,
                    heap::<K, V>(*final(file), degree as nat),
                    degree as nat,
                    s,
                    r->Ok_0,
                    contents(m, offset, height as nat).remove(key),
                )
            } else {
                r is Err && r->Err_0 == Error::NotFound && *final(file) == *old(file)
            }
        },
    decreases height,
{
    let ghost file0 = *file;
    let ghost m = heap::<K, V>(*file, degree as nat);
    let ghost good = file_ok::<K, V>(*file, degree as nat) && shape(m, degree as nat, s)
        && s.offset == offset && s.height == height && in_range(key, s.low, s.high);
    let ghost whole = contents(m, offset, height as nat).remove(key);
    let mut node = match Node::<K, V>::read(file, offset, degree) {
        Ok(node) => node,
        Err(e) => {
            return Err(e);
        },
    };
    let ghost n = node@;
    if node.is_leaf() {
        if height != 0 {
            return Err(Error::Encoding);
        }
        match node.remove_kv(key) {
            Ok(_) => {},
            Err(e) => {
                return Err(e);
            },
        }
        proof {
            if good {
                let i = choose|i: int|
                    0 <= i < n.keys.len() && n.keys[i] == key && node@.keys == n.keys.remove(i)
                        && node@.values == n.values.remove(i);
                lemma_leaf_took(m, degree as nat, s, (degree - 1) as nat, i);
                assert(node@ == leaf_without(n, i));
                crate::nodes::crud::lemma_sorted_position(n.keys, i);
                assert(node@ == leaf_without(m[offset], position(m[offset].keys, key)));
                assert(node@ == shrunk_top(m, degree as nat, offset, height as nat, key));
            }
        }
        if offset != 0 && node.keys.len() < degree / 2 {
            return Ok(Some(node));
        }
        proof {
            if good {
                lemma_put_from_took(m, m, degree as nat, s, node@, (degree - 1) as nat, whole);
            }
        }
    } else {
        if height == 0 {
            return Err(Error::Encoding);
        }
        let i = node.child_index(&key);
        let child = node.children[i];
        let ghost c = child_slot(m, n, s, i as int);
        let ghost part = contents(m, child, (height - 1) as nat).remove(key);
        proof {
            lemma_route(n.keys, key);
            if good {
                lemma_child(m, degree as nat, s, (degree - 1) as nat, i as int);
                lemma_remove_changes(m, s, key);
            }
        }
        match remove_from(file, degree, child, height - 1, key, Ghost(c)) {
            Err(e) => {
                return Err(e);
            },
            Ok(None) => {
                proof {
                    if good {
                        let m3 = heap::<K, V>(*file, degree as nat);
                        assert(child_put(
                            m,
                            m3,
                            degree as nat,
                            s,
                            (degree - 1) as nat,
                            i as int,
                            part,
                        ));
                        lemma_absorb_put(
                            m,
                            m3,
                            degree as nat,
                            s,
                            (degree - 1) as nat,
                            i as int,
                            part,
                            whole,
                        );
                        assert(m3.insert(offset, m3[offset]) =~= m3);
                        assert(m3[offset] == n);
                        assert(shrunk_top(m, degree as nat, offset, height as nat, key) == n);
                        assert(n.keys.len() > 0);
                        assert(m3 == shrunk_below(m, degree as nat, offset, height as nat, key));
                        assert(file.journal@ =~= file0.journal@ + erasing(
                            m,
                            degree as nat,
                            offset,
                            height as nat,
                            key,
                        ));
                        assert(leaf_of(m, offset, height as nat, key) == leaf_of(
                            m,
                            child,
                            (height - 1) as nat,
                            key,
                        ));
                    }
                }
                return Ok(None);
            },
            Ok(Some(under)) => {
                let ghost file1 = *file;
                let ghost lacking_child = under;
                proof {
                    if good {
                        assert(leaf_of(m, offset, height as nat, key) == leaf_of(
                            m,
                            child,
                            (height - 1) as nat,
                            key,
                        ));
                        assert(!leaf_keeps(m, degree as nat, offset, height as nat, key));
                    }
                }
                let (one, right) = match join_pair(
                    file,
                    degree,
                    &node,
                    i,
                    under,
                    Ghost(m),
                    Ghost(s),
                    Ghost(part),
                ) {
                    Ok(pair) => pair,
                    Err(e) => {
                        return Err(e);
                    },
                };
                let ghost one_view = one@;
                match settle_pair(
                    file,
                    degree,
                    &mut node,
                    i,
                    one,
                    right,
                    Ghost(m),
                    Ghost(s),
                    Ghost(part),
                    Ghost(whole),
                    Ghost(file1),
                    Ghost(under),
                ) {
                    Ok(()) => {},
                    Err(e) => {
                        return Err(e);
                    },
                }
                proof {
                    if good {
                        let m1 = heap::<K, V>(file1, degree as nat);
                        assert(m1 == shrunk_below(m, degree as nat, child, (height - 1) as nat, key));
                        assert(shrunk_top(m, degree as nat, child, (height - 1) as nat, key)
                            == lacking_child@);
                        assert(one_view == pair_of(m1, n, i as int, lacking_child@));
                        assert(node@ == shrunk_top(m, degree as nat, offset, height as nat, key));
                        assert(heap::<K, V>(*file, degree as nat) == shrunk_below(
                            m,
                            degree as nat,
                            offset,
                            height as nat,
                            key,
                        ));
                        assert(file.journal@ =~= file0.journal@ + erasing_below(
                            m,
                            degree as nat,
                            offset,
                            height as nat,
                            key,
                        ));
                    }
                }
                if node.keys.len() == 0 {
                    return Ok(Some(node));
                }
                proof {
                    if good {
                        lemma_put_from_took(
                            m,
                            heap::<K, V>(*file, degree as nat),
                            degree as nat,
                            s,
                            node@,
                            (degree - 1) as nat,
                            whole,
                        );
                    }
                }
            },
        }
    }
    let ghost file2 = *file;
    let ghost m3 = heap::<K, V>(*file, degree as nat);
    node.set_dirty();
    proof {
        if good {
            assert(put_ok(m, m3, degree as nat, s, node@, (degree - 1) as nat, whole));
            assert(m3.dom().contains(offset));
            assert(node@ == shrunk_top(m, degree as nat, offset, height as nat, key));
            assert(m3 == shrunk_below(m, degree as nat, offset, height as nat, key));
            assert(file.journal@ =~= file0.journal@ + erasing_below(
                m,
                degree as nat,
                offset,
                height as nat,
                key,
            ));
            lemma_put_top(m, m3, degree as nat, s, node@, (degree - 1) as nat, whole);
            assert(node_at::<K, V>(file2, degree as nat, offset) is Some);
            lemma_node_encoding_parts::<K, V>(node@, degree as nat);
            assert(node.writable(*file));
        }
    }
    match node.write(file) {
        Ok(_) => {},
        Err(e) => {
            return Err(e);
        },
    }
    proof {
        if good {
            lemma_heap_after_write::<K, V>(file2, *file, node@, degree as nat);
            assert(file.journal@ =~= file0.journal@ + erasing(
                m,
                degree as nat,
                offset,
                height as nat,
                key,
            ));
            lemma_put_written(
                m,
                m3,
                degree as nat,
                s,
                node@,
                (degree - 1) as nat,
                (degree - 1) as nat,
                whole,
            );
        }
    }
    Ok(None)
}

} // verus!
