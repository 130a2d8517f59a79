//! Putting a pair into a subtree, changing a value, and dividing nodes on
//! file.

use vstd::prelude::*;
use crate::error::Error;
use crate::fm::nodes::{lemma_aligned_offset, lemma_record_start, NodeFile};
use crate::index::Index;
use crate::nodes::crud::{lemma_route, route};
use crate::nodes::io::{
    exact_kept, heap, lemma_heap_after_write, lemma_node_encoding_parts, node_at, Heap,
};
use crate::nodes::layout::{layout_fits, node_size};
use crate::node_type::NodeType;
use crate::nodes::Node;
use crate::tree::absorb::{
    absorbed, child_put, child_split, lemma_absorb_put, lemma_absorb_split, lemma_insert_changes,
    lemma_leaf_put_ok, lemma_leaf_set_ok, lemma_put_top, lemma_put_written, lemma_split_from_put,
    put_ok, split_ok,
};
use crate::tree::divide::{divided, left_half, right_half};
use crate::tree::relocate::{grown, lemma_root_split, moved_top, new_root};
use crate::tree::grow::{leaf_set, leaf_with};
use crate::tree::halve::{
    leaf_before, leaf_writes, link_before, linked, links_before, split_leaf,
};
use crate::tree::moved::{
    absorbed_halves, first_moves, leaf_divides, leaf_halved, lemma_moved_base,
    lemma_put_dom, lemma_sibling_apart, relinked, with_leaf_moved,
};
use crate::tree::reparent::{lemma_child, reparent_children, reparented};
use crate::tree::shape::{child_slot, contents, in_range, leaf_of, root_slot, shape, Slot};
use crate::value::Value;

verus! {

/// Whether the file is the node file of a tree of the given degree: it is in
/// order, its records have the size of a node, and the degree is odd and at
/// least three.
pub open spec fn file_ok<K: Index, V: Value>(file: NodeFile, degree: nat) -> bool {
    &&& file.wf()
    &&& layout_fits::<K, V>(degree)
    &&& file.page_size == node_size::<K, V>(degree)
    &&& degree >= 3
    &&& degree % 2 == 1
}

/// Whether the file can grow by `count` records.
pub open spec fn has_room(file: NodeFile, count: nat) -> bool {
    file.has_room(count)
}

/// A file that can grow by some records can grow by fewer, also after it has
/// grown by the difference.
pub proof fn lemma_room<K: Index, V: Value>(
    before: NodeFile,
    after: NodeFile,
    count: nat,
    fewer: nat,
)
    requires
        has_room(before, count),
        after.page_size == before.page_size,
        after.pages@.len() + fewer <= before.pages@.len() + count,
    ensures
        has_room(after, fewer),
        fewer >= 1 ==> after.end() + after.page_size <= u64::MAX,
{
    let size = before.page_size as int;
    let a = after.pages@.len() + fewer;
    let b = before.pages@.len() + count;
    assert(a * size <= b * size) by (nonlinear_arith)
        requires
            a <= b,
            size >= 0,
    ;
    if fewer >= 1 {
        let len = after.pages@.len() as int;
        assert(len * size + size <= a * size) by (nonlinear_arith)
            requires
                len + 1 <= a,
                size >= 0,
        ;
    }
}

/// Whether `over` is an overfull node read from the file and changed in
/// memory, for the top of slot `s`.
pub open spec fn overfull<K: Index, V: Value>(over: Node<K, V>, degree: nat, s: Slot<K>) -> bool {
    &&& over.degree == degree
    &&& over.offset == s.offset
    &&& over.keys@.len() == degree
    &&& over.node_type.normal() == over.node_type
}

/// Whether the node can be put in its place in the file together with its
/// children: it is dirty and in the form that pages give back, it is marked
/// as the root at offset zero only, it can be written, and its children are
/// in the file.
pub open spec fn placeable<K: Index, V: Value>(node: Node<K, V>, file: NodeFile) -> bool {
    &&& node.is_dirty
    &&& node@.canonical(node.degree as nat)
    &&& node.is_root ==> node.offset == 0
    &&& node.writable(file)
    &&& forall|j: int|
        0 <= j < node.children@.len() ==> heap::<K, V>(file, node.degree as nat).dom().contains(
            #[trigger] node.children@[j],
        ) && node.children@[j] != node.offset
}

/// Tells the children of a node where their parent is, and then writes the
/// node: the children are written before the node that names them.
pub fn place_node<K: Index, V: Value>(file: &mut NodeFile, node: &mut Node<K, V>) -> (r: Result<
    (),
    Error,
>)
    requires
        old(file).wf(),
    ensures
        final(file).wf(),
        final(file).page_size == old(file).page_size,
        final(file).pages@.len() >= old(file).pages@.len(),
        final(node)@ == old(node)@,
        final(node).degree == old(node).degree,
        file_ok::<K, V>(*old(file), old(node).degree as nat) && placeable(*old(node), *old(file))
            ==> {
            &&& r is Ok
            &&& !final(node).is_dirty
            &&& final(file).pages@.len() == old(file).pages@.len() + if old(file).index_of(
                old(node).offset,
            ) < old(file).pages@.len() {
                0int
            } else {
                1int
            }
            &&& final(file).journal@ == (old(file).journal@ + old(node).children@).push(
                old(node).offset,
            )
            &&& exact_kept::<K, V>(*old(file), *final(file), old(node).degree as nat)
            &&& heap::<K, V>(*final(file), old(node).degree as nat) == reparented(
                heap::<K, V>(*old(file), old(node).degree as nat).insert(
                    old(node).offset,
                    old(node)@,
                ),
                old(node).children@,
                old(node).offset,
            )
            &&& heap::<K, V>(*final(file), old(node).degree as nat).dom() == heap::<K, V>(
                *old(file),
                old(node).degree as nat,
            ).dom().insert(old(node).offset)
        },
{
    let ghost file0 = *file;
    let ghost m0 = heap::<K, V>(*file, node.degree as nat);
    let ghost good = file_ok::<K, V>(*file, node.degree as nat) && placeable(*node, *file);
    match reparent_children::<K, V>(file, node.degree, &node.children, node.offset) {
        Ok(()) => {},
        Err(e) => {
            return Err(e);
        },
    }
    let ghost file1 = *file;
    proof {
        if good {
            crate::tree::reparent::lemma_reparented_dom(m0, node.children@, node.offset);
            assert(node.writable(*file));
        }
    }
    match node.write(file) {
        Ok(_) => {},
        Err(e) => {
            return Err(e);
        },
    }
    proof {
        if good {
            lemma_heap_after_write::<K, V>(file1, *file, node@, node.degree as nat);
            assert(!node.children@.contains(node.offset));
            crate::tree::reparent::lemma_reparented_skip(
                m0,
                node.offset,
                node@,
                node.children@,
                node.offset,
            );
        }
    }
    Ok(())
}

/// Gives `key` another value in the subtree at `offset`: in the leaf that
/// the key belongs to, which is then written. A key that is not in the
/// subtree is reported as not found and nothing is written.
pub fn update_in<K: Index, V: Value>(
    file: &mut NodeFile,
    degree: usize,
    offset: u64,
    height: usize,
    key: K,
    value: V,
    Ghost(s): Ghost<Slot<K>>,
) -> (r: Result<(), Error>)
    requires
        old(file).wf(),
    ensures
        final(file).wf(),
        final(file).page_size == old(file).page_size,
        final(file).pages@.len() >= old(file).pages@.len(),
        file_ok::<K, V>(*old(file), degree as nat) && shape(
            heap::<K, V>(*old(file), degree as nat),
            degree as nat,
            s,
        ) && s.offset == offset && s.height == height && in_range(key, s.low, s.high) ==> {
            let m = heap::<K, V>(*old(file), degree as nat);
            if contents(m, offset, height as nat).contains_key(key) {
                &&& r is Ok
                &&& final(file).pages@.len() == old(file).pages@.len()
                &&& heap::<K, V>(*final(file), degree as nat) == m.insert(
                    leaf_of(m, offset, height as nat, key),
                    leaf_set(m[leaf_of(m, offset, height as nat, key)], key, value),
                )
                &&& final(file).journal@ == old(file).journal@.push(
                    leaf_of(m, offset, height as nat, key),
                )
                &&& exact_kept::<K, V>(*old(file), *final(file), degree as nat)
                &&& written_last(m, heap::<K, V>(*final(file), degree as nat), *final(file), offset)
                &&& taken_in(
                    m,
                    heap::<K, V>(*final(file), degree as nat),
                    degree as nat,
                    s,
                    None,
                    contents(m, offset, height as nat).insert(key, value),
                )
            } else {
                r == Err::<(), Error>(Error::NotFound) && *final(file) == *old(file)
            }
        },
    decreases height,
{
    let ghost file0 = *file;
    let ghost m = heap::<K, V>(*file, degree as nat);
    let ghost good = file_ok::<K, V>(*file, degree as nat) && shape(m, degree as nat, s)
        && s.offset == offset && s.height == height && in_range(key, s.low, s.high);
    let ghost whole = contents(m, offset, height as nat).insert(key, value);
    let mut node = match Node::<K, V>::read(file, offset, degree) {
        Ok(node) => node,
        Err(e) => {
            return Err(e);
        },
    };
    let ghost n = node@;
    if node.is_leaf() {
        if height != 0 {
            return Err(Error::Encoding);
        }
        match node.update(key, value) {
            Ok(()) => {},
            Err(e) => {
                return Err(e);
            },
        }
        proof {
            if good {
                let i = choose|i: int|
                    0 <= i < n.keys.len() && n.keys[i] == key && node@.values == n.values.update(
                        i,
                        value,
                    );
                lemma_leaf_set_ok(m, degree as nat, s, (degree - 1) as nat, i, value);
                crate::nodes::crud::lemma_sorted_position(n.keys, i);
                assert(node@ == leaf_set(m[offset], key, value));
                assert(node@ == crate::nodes::NodeView { values: n.values.update(i, value), ..n });
                assert(node_at::<K, V>(file0, degree as nat, offset) is Some);
                lemma_node_encoding_parts::<K, V>(node@, degree as nat);
                lemma_put_top(m, m, degree as nat, s, node@, (degree - 1) as nat, whole);
                assert(node.writable(*file));
            }
        }
        match node.write(file) {
            Ok(_) => {},
            Err(e) => {
                return Err(e);
            },
        }
        proof {
            if good {
                lemma_heap_after_write::<K, V>(file0, *file, node@, degree as nat);
                lemma_put_written(
                    m,
                    m,
                    degree as nat,
                    s,
                    node@,
                    (degree - 1) as nat,
                    (degree - 1) as nat,
                    whole,
                );
            }
        }
        Ok(())
    } else {
        if height == 0 {
            return Err(Error::Encoding);
        }
        let i = node.child_index(&key);
        let child = node.children[i];
        let ghost c = child_slot(m, n, s, i as int);
        let ghost part = contents(m, child, (height - 1) as nat).insert(key, value);
        proof {
            lemma_route(n.keys, key);
            if good {
                lemma_child(m, degree as nat, s, (degree - 1) as nat, i as int);
            }
        }
        match update_in(file, degree, child, height - 1, key, value, Ghost(c)) {
            Err(e) => Err(e),
            Ok(()) => {
                proof {
                    if good {
                        let m3 = heap::<K, V>(*file, degree as nat);
                        assert(child_put(
                            m,
                            m3,
                            degree as nat,
                            s,
                            (degree - 1) as nat,
                            i as int,
                            part,
                        ));
                        lemma_insert_changes(m, s, key, value);
                        lemma_absorb_put(
                            m,
                            m3,
                            degree as nat,
                            s,
                            (degree - 1) as nat,
                            i as int,
                            part,
                            whole,
                        );
                        assert(m3.insert(offset, m3[offset]) =~= m3);
                        assert(leaf_of(m, offset, height as nat, key) == leaf_of(
                            m,
                            child,
                            (height - 1) as nat,
                            key,
                        ));
                    }
                }
                Ok(())
            },
        }
    }
}

/// Whether each child of the overfull node `over` for slot `s` is in the
/// file `m2` and at another offset than the node's own.
pub proof fn lemma_over_children<K: Index, V: Value>(
    m: Heap<K, V>,
    m2: Heap<K, V>,
    degree: nat,
    s: Slot<K>,
    over: crate::nodes::NodeView<K, V>,
    expected: Map<K, V>,
)
    requires
        put_ok(m, m2, degree, s, over, degree, expected),
        s.height > 0,
    ensures
        forall|j: int|
            0 <= j < over.children.len() ==> m2.dom().contains(#[trigger] over.children[j])
                && over.children[j] != s.offset && over.children[j] != 0,
{
    lemma_put_top(m, m2, degree, s, over, degree, expected);
    let mv = m2.insert(s.offset, over);
    assert forall|j: int| 0 <= j < over.children.len() implies m2.dom().contains(
        #[trigger] over.children[j],
    ) && over.children[j] != s.offset && over.children[j] != 0 by {
        lemma_child(mv, degree, s, degree, j);
        crate::tree::frame::lemma_reach_dom(
            mv,
            degree,
            child_slot(mv, over, s, j),
            (degree - 1) as nat,
        );
        crate::tree::frame::lemma_reach_top(mv, over.children[j], (s.height - 1) as nat);
    }
}

/// What is known once the right half of an overfull node stands in the file.
pub open spec fn handed<K: Index, V: Value>(
    before: crate::nodes::NodeView<K, V>,
    degree: nat,
    s: Slot<K>,
    file0: NodeFile,
    m2: Heap<K, V>,
    file: NodeFile,
    left: Node<K, V>,
    separator: K,
    right: u64,
) -> bool {
    let mid = (degree / 2) as int;
    let rh = right_half(before, mid, right);
    &&& right == file0.end()
    &&& right != 0
    &&& right != s.offset
    &&& !m2.dom().contains(right)
    &&& separator == before.keys[mid]
    &&& left@ == left_half(before, mid, right)
    &&& left.is_dirty
    &&& left.degree == degree
    &&& left@.canonical(degree)
    &&& file.pages@.len() == file0.pages@.len() + 1
    &&& file.journal@ == (file0.journal@ + rh.children).push(right)
    &&& exact_kept::<K, V>(file0, file, degree)
    &&& heap::<K, V>(file, degree) == reparented(m2.insert(right, rh), rh.children, right)
    &&& heap::<K, V>(file, degree).dom() == m2.dom().insert(right)
    &&& forall|j: int|
        0 <= j < left.children@.len() ==> m2.dom().contains(#[trigger] left.children@[j])
            && left.children@[j] != s.offset && left.children@[j] != 0
}

/// Divides an overfull node and puts the right half in its place: in a new
/// record at the end of the file, with the children handed over told of
/// their new parent. The left half is left in `over`, still to be written.
/// Returns the separator and the offset of the right half.
pub fn hand_over<K: Index, V: Value>(
    file: &mut NodeFile,
    degree: usize,
    over: &mut Node<K, V>,
    Ghost(m): Ghost<Heap<K, V>>,
    Ghost(s): Ghost<Slot<K>>,
    Ghost(expected): Ghost<Map<K, V>>,
) -> (r: Result<(K, u64), Error>)
    requires
        old(file).wf(),
    ensures
        final(file).wf(),
        final(file).page_size == old(file).page_size,
        final(file).pages@.len() >= old(file).pages@.len(),
        file_ok::<K, V>(*old(file), degree as nat) && has_room(*old(file), 1) && overfull(
            *old(over),
            degree as nat,
            s,
        ) && heap::<K, V>(*old(file), degree as nat).dom().contains(s.offset) && put_ok(
            m,
            heap::<K, V>(*old(file), degree as nat),
            degree as nat,
            s,
            old(over)@,
            degree as nat,
            expected,
        ) ==> r is Ok && handed(
            old(over)@,
            degree as nat,
            s,
            *old(file),
            heap::<K, V>(*old(file), degree as nat),
            *final(file),
            *final(over),
            r->Ok_0.0,
            r->Ok_0.1,
        ),
{
    let ghost m2 = heap::<K, V>(*file, degree as nat);
    let ghost good = file_ok::<K, V>(*file, degree as nat) && has_room(*file, 1) && overfull(
        *over,
        degree as nat,
        s,
    ) && m2.dom().contains(s.offset) && put_ok(
        m,
        m2,
        degree as nat,
        s,
        over@,
        degree as nat,
        expected,
    );
    let ghost before = over@;
    let ghost file0 = *file;
    if over.degree != degree || over.degree < 2 || over.keys.len() != over.degree {
        return Err(Error::Encoding);
    }
    proof {
        if good {
            lemma_put_top(m, m2, degree as nat, s, before, degree as nat, expected);
            if s.height > 0 {
                lemma_over_children(m, m2, degree as nat, s, before, expected);
            }
        }
    }
    if over.is_leaf() {
        if over.values.len() != over.keys.len() {
            return Err(Error::Encoding);
        }
    } else if over.children.len() == 0 || over.children.len() - 1 != over.keys.len() {
        return Err(Error::Encoding);
    }
    let right_offset = file.end_offset();
    let (separator, mut right) = over.divide(right_offset);
    proof {
        if good {
            assert(node_at::<K, V>(file0, degree as nat, s.offset) is Some);
            lemma_record_start(file0.pages@.len() as int, file0.page_size as int);
            lemma_aligned_offset(s.offset as int, file0.page_size as int);
            assert(right_offset != 0 && right_offset != s.offset) by (nonlinear_arith)
                requires
                    right_offset == file0.pages@.len() * file0.page_size,
                    s.offset == file0.index_of(s.offset) * file0.page_size,
                    0 <= file0.index_of(s.offset) < file0.pages@.len(),
                    file0.page_size > 0,
            ;
            let rh = right_half(before, (degree / 2) as int, right_offset);
            let lh = left_half(before, (degree / 2) as int, right_offset);
            assert(right@.keys =~= rh.keys);
            assert(right@.values =~= rh.values);
            assert(right@.children =~= rh.children);
            assert(right@ == rh);
            assert(over@.keys =~= lh.keys);
            assert(over@.values =~= lh.values);
            assert(over@.children =~= lh.children);
            assert(over@ == lh);
            lemma_room::<K, V>(file0, file0, 1, 1);
            lemma_node_encoding_parts::<K, V>(right@, degree as nat);
            assert(right.writable(*file));
            assert(placeable(right, *file));
        }
    }
    match place_node(file, &mut right) {
        Ok(_) => {},
        Err(e) => {
            return Err(e);
        },
    }
    Ok((separator, right_offset))
}

/// Divides an overfull internal node that is not the root, in place: the
/// right half goes to a new record at the end of the file, with the children
/// handed over told of their new parent, and the left half stays where the
/// node was. Returns the separator, the key at the middle index of the
/// overfull node, and the offset of the right half, for the node above.
///
/// The node stays where it is because its children name it by its offset: a
/// move would rewrite each of them. A leaf is not divided so: it has no
/// children to rewrite, and its halves go to two new records. It is refused
/// here as damage.
pub fn split_child<K: Index, V: Value>(
    file: &mut NodeFile,
    degree: usize,
    over: Node<K, V>,
    Ghost(m): Ghost<Heap<K, V>>,
    Ghost(s): Ghost<Slot<K>>,
    Ghost(expected): Ghost<Map<K, V>>,
) -> (r: Result<(K, u64), Error>)
    requires
        old(file).wf(),
    ensures
        final(file).wf(),
        final(file).page_size == old(file).page_size,
        final(file).pages@.len() >= old(file).pages@.len(),
        over@.is_leaf() ==> r is Err && r->Err_0 == Error::Encoding && *final(file) == *old(file),
        file_ok::<K, V>(*old(file), degree as nat) && has_room(*old(file), 1) && overfull(
            over,
            degree as nat,
            s,
        ) && s.height > 0 && heap::<K, V>(*old(file), degree as nat).dom().contains(s.offset)
            && put_ok(
            m,
            heap::<K, V>(*old(file), degree as nat),
            degree as nat,
            s,
            over@,
            degree as nat,
            expected,
        ) ==> {
            &&& r matches Ok((separator, right))
            &&& final(file).pages@.len() == old(file).pages@.len() + 1
            &&& separator == over@.keys[(degree / 2) as int]
            &&& right == old(file).end()
            &&& final(file).journal@ == old(file).journal@ + halving_writes(
                over@,
                s.offset,
                right,
                (degree / 2) as int,
            )
            &&& exact_kept::<K, V>(*old(file), *final(file), degree as nat)
            &&& heap::<K, V>(*final(file), degree as nat) == divided(
                heap::<K, V>(*old(file), degree as nat),
                degree as nat,
                s,
                over@,
                right,
                (degree / 2) as int,
            )
            &&& split_ok(
                m,
                heap::<K, V>(*final(file), degree as nat),
                degree as nat,
                s,
                separator,
                right,
                expected,
            )
        },
{
    let ghost m2 = heap::<K, V>(*file, degree as nat);
    let ghost good = file_ok::<K, V>(*file, degree as nat) && has_room(*file, 1) && overfull(
        over,
        degree as nat,
        s,
    ) && s.height > 0 && m2.dom().contains(s.offset) && put_ok(
        m,
        m2,
        degree as nat,
        s,
        over@,
        degree as nat,
        expected,
    );
    let ghost before = over@;
    if over.is_leaf() {
        proof {
            if good {
                lemma_put_top(m, m2, degree as nat, s, over@, degree as nat, expected);
            }
        }
        return Err(Error::Encoding);
    }
    let mut left = over;
    let (separator, right) = match hand_over(
        file,
        degree,
        &mut left,
        Ghost(m),
        Ghost(s),
        Ghost(expected),
    ) {
        Ok(pair) => pair,
        Err(e) => {
            return Err(e);
        },
    };
    let ghost file2 = *file;
    proof {
        if good {
            assert(heap::<K, V>(file2, degree as nat).dom().contains(s.offset));
            assert(node_at::<K, V>(file2, degree as nat, s.offset) is Some);
            lemma_node_encoding_parts::<K, V>(left@, degree as nat);
            assert(left.writable(*file));
            lemma_put_top(m, m2, degree as nat, s, before, degree as nat, expected);
            assert(left.is_root ==> s.offset == 0);
        }
    }
    match left.write(file) {
        Ok(_) => {},
        Err(e) => {
            return Err(e);
        },
    }
    proof {
        if good {
            lemma_heap_after_write::<K, V>(file2, *file, left@, degree as nat);
            assert(file.journal@ =~= old(file).journal@ + halving_writes(
                before,
                s.offset,
                right,
                (degree / 2) as int,
            ));
            assert(heap::<K, V>(*file, degree as nat) == divided(
                m2,
                degree as nat,
                s,
                before,
                right,
                (degree / 2) as int,
            ));
            lemma_split_from_put(m, m2, degree as nat, s, before, right, expected);
        }
    }
    Ok((separator, right))
}

/// Whether the node at `offset`, where it has changed, was the last to be
/// written: after every node below it.
pub open spec fn written_last<K: Index, V: Value>(
    m: Heap<K, V>,
    m2: Heap<K, V>,
    file: NodeFile,
    offset: u64,
) -> bool {
    m2[offset] == m[offset] || (file.journal@.len() > 0 && file.journal@.last() == offset)
}

/// Whether every node on the way from the node at `offset` down to the leaf
/// that `key` belongs to is full: holds `degree - 1` keys.
pub open spec fn full_path<K: Index, V: Value>(
    m: Heap<K, V>,
    degree: nat,
    offset: u64,
    height: nat,
    key: K,
) -> bool
    decreases height,
{
    &&& m.dom().contains(offset)
    &&& m[offset].keys.len() + 1 == degree
    &&& height > 0 ==> full_path(
        m,
        degree,
        m[offset].children[route(m[offset].keys, key)],
        (height - 1) as nat,
        key,
    )
}

/// How many records are added below the node at `offset` when `key` is put
/// in: two for the key's leaf where it is full and is not the node at
/// `offset` itself, and one for each internal node on the way down to it that
/// is divided.
pub open spec fn added_below<K: Index, V: Value>(
    m: Heap<K, V>,
    degree: nat,
    offset: u64,
    height: nat,
    key: K,
) -> nat
    decreases height,
{
    if height == 0 || !m.dom().contains(offset) {
        0
    } else {
        let child = m[offset].children[route(m[offset].keys, key)];
        added_below(m, degree, child, (height - 1) as nat, key) + if !full_path(
            m,
            degree,
            child,
            (height - 1) as nat,
            key,
        ) {
            0nat
        } else if height == 1 {
            2nat
        } else {
            1nat
        }
    }
}

/// The keys of the node at `offset` once `key` is in its subtree: a leaf has
/// the key at its route; an internal node has the separator of the child on
/// the key's way, the key at the middle index of that child, where the child
/// is divided, and the keys that it had where it is not.
pub open spec fn taken_keys<K: Index, V: Value>(
    m: Heap<K, V>,
    degree: nat,
    offset: u64,
    height: nat,
    key: K,
) -> Seq<K>
    decreases height,
{
    let n = m[offset];
    let i = route(n.keys, key);
    if height == 0 {
        n.keys.insert(i, key)
    } else if full_path(m, degree, n.children[i], (height - 1) as nat, key) {
        n.keys.insert(
            i,
            taken_keys(m, degree, n.children[i], (height - 1) as nat, key)[(degree / 2) as int],
        )
    } else {
        n.keys
    }
}

/// The file after the overfull node `over` at `offset` was divided at `mid`:
/// the right half stands at `right` as the parent of the children handed
/// over, the left half where the node was.
pub open spec fn halved<K, V>(
    m: Heap<K, V>,
    offset: u64,
    over: crate::nodes::NodeView<K, V>,
    right: u64,
    mid: int,
) -> Heap<K, V> {
    let r = right_half(over, mid, right);
    reparented(m.insert(right, r), r.children, right).insert(offset, left_half(over, mid, right))
}

/// The records written, in the order of the writes, when the overfull node
/// `over` at `offset` is divided at `mid`: the children handed over, the
/// right half at `right` that now names them, and then the left half.
pub open spec fn halving_writes<K, V>(
    over: crate::nodes::NodeView<K, V>,
    offset: u64,
    right: u64,
    mid: int,
) -> Seq<u64> {
    right_half(over, mid, right).children.push(right).push(offset)
}

/// The records written, in the order of the writes, when the overfull root
/// `over` is divided at `mid`: the children of the right half and the right
/// half at `right`, the children of the left half and the left half at
/// `left`, and at last the new root.
pub open spec fn growing_writes<K, V>(
    over: crate::nodes::NodeView<K, V>,
    left: u64,
    right: u64,
    mid: int,
) -> Seq<u64> {
    (right_half(over, mid, right).children.push(right) + left_half(
        over,
        mid,
        right,
    ).children.push(left)).push(0)
}

/// Where the left half of the key's leaf goes where the leaf is divided
/// below the node from which the key is put in: to the second record behind
/// the end of the file as it was, the right half going to the first.
pub open spec fn left_place(end: int, size: int) -> u64 {
    (end + size) as u64
}

/// Where the right half of the internal node at `offset` goes when the node
/// is divided: to the record behind those that are added below it, in a file
/// that ends at `end` and has records of `size` bytes.
pub open spec fn right_place<K: Index, V: Value>(
    m: Heap<K, V>,
    degree: nat,
    offset: u64,
    height: nat,
    key: K,
    end: int,
    size: int,
) -> u64 {
    (end + added_below(m, degree, offset, height, key) * size) as u64
}

/// The node at `offset` once the pair is in its subtree, before it is
/// divided itself where it is then overfull: a leaf with the pair in it; an
/// internal node as it was where the child on the key's way is not divided,
/// and else with the separator, the key at the middle index of that child,
/// and either both halves of a leaf in place of the leaf, or the right half
/// of an internal node behind the node.
pub open spec fn taken_top<K: Index, V: Value>(
    m: Heap<K, V>,
    degree: nat,
    offset: u64,
    height: nat,
    key: K,
    value: V,
    end: int,
    size: int,
) -> crate::nodes::NodeView<K, V>
    decreases height,
{
    let n = m[offset];
    let i = route(n.keys, key);
    if height == 0 {
        leaf_with(n, key, value)
    } else if !full_path(m, degree, n.children[i], (height - 1) as nat, key) {
        n
    } else {
        let separator = taken_top(
            m,
            degree,
            n.children[i],
            (height - 1) as nat,
            key,
            value,
            end,
            size,
        ).keys[(degree / 2) as int];
        if height == 1 {
            absorbed_halves(n, i, separator, left_place(end, size), end as u64)
        } else {
            absorbed(
                n,
                i,
                separator,
                right_place(m, degree, n.children[i], (height - 1) as nat, key, end, size),
            )
        }
    }
}

/// The file once the pair is in the subtree at `offset` and every node below
/// the node at `offset` has been dealt with. After the same was done below
/// the child on the key's way, the leaf before a leaf that has moved is
/// linked to it where that leaf lies below this node. Then the child is
/// written where it is not overfull; a leaf that is overfull is divided into
/// two new records, and an internal node at the middle, its right half
/// going to a new record.
pub open spec fn settled_below<K: Index, V: Value>(
    m: Heap<K, V>,
    degree: nat,
    offset: u64,
    height: nat,
    key: K,
    value: V,
    end: int,
    size: int,
) -> Heap<K, V>
    decreases height,
{
    if height == 0 {
        m
    } else {
        let child = m[offset].children[route(m[offset].keys, key)];
        let below = linked(
            m,
            settled_below(m, degree, child, (height - 1) as nat, key, value, end, size),
            degree,
            offset,
            height,
            key,
            left_place(end, size),
        );
        let top = taken_top(m, degree, child, (height - 1) as nat, key, value, end, size);
        if !full_path(m, degree, child, (height - 1) as nat, key) {
            below.insert(child, top)
        } else if height == 1 {
            leaf_halved(m, degree, offset, key, value, left_place(end, size), end as u64)
        } else {
            halved(
                below,
                child,
                top,
                right_place(m, degree, child, (height - 1) as nat, key, end, size),
                (degree / 2) as int,
            )
        }
    }
}

/// The records written, in the order of the writes, before the node at
/// `offset` is dealt with: what is written below the child on the key's way,
/// the leaf that is linked to a moved leaf, and the halves of the child where
/// it is divided.
pub open spec fn writes_below<K: Index, V: Value>(
    m: Heap<K, V>,
    degree: nat,
    offset: u64,
    height: nat,
    key: K,
    value: V,
    end: int,
    size: int,
) -> Seq<u64>
    decreases height, 0nat,
{
    if height == 0 {
        Seq::empty()
    } else {
        let n = m[offset];
        let i = route(n.keys, key);
        let child = n.children[i];
        let below = writes(m, degree, child, (height - 1) as nat, key, value, end, size);
        let linking = if links_before(m, degree, offset, height, key) {
            below.push(leaf_before(m, offset, height, key))
        } else {
            below
        };
        if !full_path(m, degree, child, (height - 1) as nat, key) {
            linking
        } else if height == 1 {
            linking + leaf_writes(n, i, left_place(end, size), end as u64)
        } else {
            linking + halving_writes(
                taken_top(m, degree, child, (height - 1) as nat, key, value, end, size),
                child,
                right_place(m, degree, child, (height - 1) as nat, key, end, size),
                (degree / 2) as int,
            )
        }
    }
}

/// The records written, in the order of the writes, when the pair is put
/// into the subtree at `offset`. A node is written after every node below
/// it: the node at `offset` comes last, where it has changed and is not
/// handed back with one key too many.
pub open spec fn writes<K: Index, V: Value>(
    m: Heap<K, V>,
    degree: nat,
    offset: u64,
    height: nat,
    key: K,
    value: V,
    end: int,
    size: int,
) -> Seq<u64>
    decreases height, 1nat,
{
    let below = writes_below(m, degree, offset, height, key, value, end, size);
    let changed = height == 0 || full_path(
        m,
        degree,
        m[offset].children[route(m[offset].keys, key)],
        (height - 1) as nat,
        key,
    );
    if changed && !full_path(m, degree, offset, height, key) {
        below.push(offset)
    } else {
        below
    }
}

/// The file once the pair is in the subtree at `offset`, but for the node at
/// `offset` itself where that is overfull: it is then still to be divided.
pub open spec fn settled<K: Index, V: Value>(
    m: Heap<K, V>,
    degree: nat,
    offset: u64,
    height: nat,
    key: K,
    value: V,
    end: int,
    size: int,
) -> Heap<K, V> {
    if full_path(m, degree, offset, height, key) {
        settled_below(m, degree, offset, height, key, value, end, size)
    } else {
        settled_below(m, degree, offset, height, key, value, end, size).insert(
            offset,
            taken_top(m, degree, offset, height, key, value, end, size),
        )
    }
}

/// The first leaf that has moved where `key` is put into the subtree at
/// `offset`, for the level above to link the leaf before it: the left half
/// of the key's leaf, where that leaf is divided and is the first leaf of the
/// subtree.
pub open spec fn moved_first<K: Index, V: Value>(
    m: Heap<K, V>,
    degree: nat,
    offset: u64,
    height: nat,
    key: K,
    end: int,
    size: int,
) -> Option<u64> {
    if first_moves(m, degree, offset, height, key) {
        Some(left_place(end, size))
    } else {
        None
    }
}

/// Whether the leaf that `key` belongs to in the subtree at `offset` is
/// full.
pub open spec fn leaf_full<K: Index, V: Value>(
    m: Heap<K, V>,
    degree: nat,
    offset: u64,
    height: nat,
    key: K,
) -> bool {
    full_path(m, degree, leaf_of(m, offset, height, key), 0, key)
}

/// Where every node on the way down to the leaf of `key` is full, the leaf
/// is full.
pub proof fn lemma_full_path_leaf<K: Index, V: Value>(
    m: Heap<K, V>,
    degree: nat,
    offset: u64,
    height: nat,
    key: K,
)
    requires
        full_path(m, degree, offset, height, key),
    ensures
        leaf_full(m, degree, offset, height, key),
    decreases height,
{
    if height > 0 {
        lemma_full_path_leaf(
            m,
            degree,
            m[offset].children[route(m[offset].keys, key)],
            (height - 1) as nat,
            key,
        );
    }
}

/// No more records are added below a node than it has levels below it and
/// one: two for the leaf and one for each internal node in between.
pub proof fn lemma_added_below_bound<K: Index, V: Value>(
    m: Heap<K, V>,
    degree: nat,
    offset: u64,
    height: nat,
    key: K,
)
    ensures
        height > 0 ==> added_below(m, degree, offset, height, key) <= height + 1,
        height == 0 ==> added_below(m, degree, offset, height, key) == 0,
    decreases height,
{
    if height > 0 && m.dom().contains(offset) {
        lemma_added_below_bound(
            m,
            degree,
            m[offset].children[route(m[offset].keys, key)],
            (height - 1) as nat,
            key,
        );
    }
}

/// What a change to the subtree of slot `s` comes to, once the node at its
/// top has been dealt with: the top node stands in the file, or it is handed
/// back overfull.
pub open spec fn taken_in<K: Index, V: Value>(
    m: Heap<K, V>,
    m2: Heap<K, V>,
    degree: nat,
    s: Slot<K>,
    outcome: Option<Node<K, V>>,
    expected: Map<K, V>,
) -> bool {
    &&& m2.dom().contains(s.offset)
    &&& match outcome {
        None => put_ok(m, m2, degree, s, m2[s.offset], (degree - 1) as nat, expected),
        Some(over) => overfull(over, degree, s) && put_ok(m, m2, degree, s, over@, degree, expected),
    }
}

/// Whether `over` is child `i` of `node`, the top node of slot `s`, handed
/// back with one key too many after the pair of `key` was put in below it,
/// seen from the file `b` before the change.
pub open spec fn half_to_absorb<K: Index, V: Value>(
    file: NodeFile,
    degree: nat,
    node: Node<K, V>,
    i: int,
    over: Node<K, V>,
    b: Heap<K, V>,
    s: Slot<K>,
    key: K,
    value: V,
) -> bool {
    let n = b[s.offset];
    let c = child_slot(b, n, s, i);
    &&& file_ok::<K, V>(file, degree)
    &&& has_room(file, 1)
    &&& shape(b, degree, s)
    &&& s.height >= 2
    &&& node@ == n
    &&& i == route(n.keys, key)
    &&& overfull(over, degree, c)
    &&& heap::<K, V>(file, degree).dom().contains(c.offset)
    &&& put_ok(
        b,
        heap::<K, V>(file, degree),
        degree,
        c,
        over@,
        degree,
        contents(b, c.offset, c.height).insert(key, value),
    )
}

/// Divides the internal node `over`, child `i` of `node`, and lets `node`
/// take in the separator and the right half: see [`split_child`]. The node
/// is still to be written.
pub fn absorb_half<K: Index, V: Value>(
    file: &mut NodeFile,
    degree: usize,
    node: &mut Node<K, V>,
    i: usize,
    over: Node<K, V>,
    Ghost(b): Ghost<Heap<K, V>>,
    Ghost(s): Ghost<Slot<K>>,
    Ghost(key): Ghost<K>,
    Ghost(value): Ghost<V>,
) -> (r: Result<(), Error>)
    requires
        old(file).wf(),
    ensures
        final(file).wf(),
        final(file).page_size == old(file).page_size,
        final(file).pages@.len() >= old(file).pages@.len(),
        final(node).degree == old(node).degree,
        final(node).offset == old(node).offset,
        half_to_absorb(*old(file), degree as nat, *old(node), i as int, over, b, s, key, value)
            ==> {
            let right = old(file).end() as u64;
            let child = b[s.offset].children[i as int];
            let mid = (degree / 2) as int;
            &&& r is Ok
            &&& final(file).pages@.len() == old(file).pages@.len() + 1
            &&& heap::<K, V>(*final(file), degree as nat) == halved(
                heap::<K, V>(*old(file), degree as nat),
                child,
                over@,
                right,
                mid,
            )
            &&& final(file).journal@ == old(file).journal@ + halving_writes(
                over@,
                child,
                right,
                mid,
            )
            &&& exact_kept::<K, V>(*old(file), *final(file), degree as nat)
            &&& *final(node) == (Node {
                is_dirty: true,
                keys: final(node).keys,
                children: final(node).children,
                ..*old(node)
            })
            &&& final(node)@ == absorbed(b[s.offset], i as int, over@.keys[mid], right)
            &&& put_ok(
                b,
                heap::<K, V>(*final(file), degree as nat),
                degree as nat,
                s,
                final(node)@,
                degree as nat,
                contents(b, s.offset, s.height).insert(key, value),
            )
        },
{
    let ghost good = half_to_absorb(
        *file,
        degree as nat,
        *node,
        i as int,
        over,
        b,
        s,
        key,
        value,
    );
    let ghost n = node@;
    let ghost c = child_slot(b, n, s, i as int);
    let ghost part = contents(b, c.offset, c.height).insert(key, value);
    let ghost whole = contents(b, s.offset, s.height).insert(key, value);
    if i > node.keys.len() || node.children.len() == 0 || node.children.len() - 1
        != node.keys.len() {
        proof {
            if good {
                lemma_route(n.keys, key);
                lemma_child(b, degree as nat, s, (degree - 1) as nat, i as int);
                assert(false);
            }
        }
        return Err(Error::Encoding);
    }
    match split_child(file, degree, over, Ghost(b), Ghost(c), Ghost(part)) {
        Err(e) => Err(e),
        Ok((separator, right)) => {
            node.insert_child(i, separator, right);
            proof {
                if good {
                    let m3 = heap::<K, V>(*file, degree as nat);
                    lemma_route(n.keys, key);
                    assert(child_split(
                        b,
                        m3,
                        degree as nat,
                        s,
                        (degree - 1) as nat,
                        i as int,
                        separator,
                        right,
                        part,
                    ));
                    lemma_insert_changes(b, s, key, value);
                    lemma_absorb_split(
                        b,
                        m3,
                        degree as nat,
                        s,
                        (degree - 1) as nat,
                        i as int,
                        part,
                        whole,
                        separator,
                        right,
                    );
                    assert(node@ == absorbed(n, i as int, separator, right));
                }
            }
            Ok(())
        },
    }
}

/// What an insertion into the subtree at `offset` hands to the level above:
/// the node at `offset` where it has one key too many, and the offset of the
/// first leaf of the subtree where that leaf has moved.
pub struct Taken<K: Index, V: Value> {
    pub over: Option<Node<K, V>>,
    pub first: Option<u64>,
}

/// What an insertion below a node comes to for the node: whether the node
/// has changed, by taking in a separator, and the offset of the first leaf
/// below it where that leaf has moved and the leaf before it lies elsewhere.
pub struct Below {
    pub changed: bool,
    pub first: Option<u64>,
}

/// Whether `node` is the top node of slot `s`, as it stands in the file, one
/// level or more above the leaves, with `key` within the bounds of the slot
/// and room in the file for the records that may be added below the node.
pub open spec fn ready_below<K: Index, V: Value>(
    file: NodeFile,
    degree: nat,
    node: Node<K, V>,
    height: nat,
    key: K,
    s: Slot<K>,
) -> bool {
    let m = heap::<K, V>(file, degree);
    &&& file_ok::<K, V>(file, degree)
    &&& has_room(file, height + 1)
    &&& shape(m, degree, s)
    &&& s.offset == node.offset
    &&& s.height == height
    &&& height >= 1
    &&& in_range(key, s.low, s.high)
    &&& node@ == m[s.offset]
    &&& node.degree == degree
}

/// Puts `key` with `value` into the subtree below `node`, an internal node
/// read from the file, and lets the node take in what comes up.
///
/// The pair goes into the child before the first key that exceeds `key`. A
/// first leaf that has moved below that child is linked from the last leaf
/// below the child before it. A child that is handed back with one key too
/// many is divided: a leaf into two new records, an internal node in place,
/// with its right half in a new record; the node then takes in the separator
/// and is still to be written.
#[verifier::rlimit(30)]
pub fn insert_below<K: Index, V: Value>(
    file: &mut NodeFile,
    degree: usize,
    node: &mut Node<K, V>,
    height: usize,
    key: K,
    value: V,
    Ghost(s): Ghost<Slot<K>>,
) -> (r: Result<Below, Error>)
    requires
        old(file).wf(),
    ensures
        final(file).wf(),
        final(file).page_size == old(file).page_size,
        final(file).pages@.len() >= old(file).pages@.len(),
        final(node).degree == old(node).degree,
        final(node).offset == old(node).offset,
        ready_below(*old(file), degree as nat, *old(node), height as nat, key, s) ==> {
            let m = heap::<K, V>(*old(file), degree as nat);
            let offset = s.offset;
            let end = old(file).end();
            let size = old(file).page_size as int;
            let n = m[offset];
            let child = n.children[route(n.keys, key)];
            let changed = full_path(m, degree as nat, child, (height - 1) as nat, key);
            if contents(m, offset, height as nat).contains_key(key) {
                r is Err && r->Err_0 == Error::DuplicateKey && *final(file) == *old(file)
            } else {
                &&& r is Ok
                &&& r->Ok_0.changed == changed
                &&& r->Ok_0.first == moved_first(
                    m,
                    degree as nat,
                    offset,
                    height as nat,
                    key,
                    end,
                    size,
                )
                &&& final(file).pages@.len() == old(file).pages@.len() + added_below(
                    m,
                    degree as nat,
                    offset,
                    height as nat,
                    key,
                )
                &&& !leaf_full(m, degree as nat, offset, height as nat, key) ==> heap::<K, V>(
                    *final(file),
                    degree as nat,
                ) == m.insert(
                    leaf_of(m, offset, height as nat, key),
                    leaf_with(m[leaf_of(m, offset, height as nat, key)], key, value),
                )
                &&& heap::<K, V>(*final(file), degree as nat) == settled_below(
                    m,
                    degree as nat,
                    offset,
                    height as nat,
                    key,
                    value,
                    end,
                    size,
                )
                &&& final(file).journal@ == old(file).journal@ + writes_below(
                    m,
                    degree as nat,
                    offset,
                    height as nat,
                    key,
                    value,
                    end,
                    size,
                )
                &&& exact_kept::<K, V>(*old(file), *final(file), degree as nat)
                &&& final(node)@ == taken_top(
                    m,
                    degree as nat,
                    offset,
                    height as nat,
                    key,
                    value,
                    end,
                    size,
                )
                &&& final(node)@.keys == taken_keys(m, degree as nat, offset, height as nat, key)
                &&& final(node).node_type == old(node).node_type
                &&& !changed ==> *final(node) == *old(node) && heap::<K, V>(
                    *final(file),
                    degree as nat,
                )[offset] == n
                &&& changed ==> final(node)@.keys.len() == n.keys.len() + 1
                &&& heap::<K, V>(*final(file), degree as nat).dom().contains(offset)
                &&& put_ok(
                    with_leaf_moved(
                        m,
                        degree as nat,
                        offset,
                        height as nat,
                        key,
                        left_place(end, size),
                    ),
                    heap::<K, V>(*final(file), degree as nat),
                    degree as nat,
                    s,
                    final(node)@,
                    if changed {
                        degree as nat
                    } else {
                        (degree - 1) as nat
                    },
                    contents(m, offset, height as nat).insert(key, value),
                )
            }
        },
    decreases height, 0nat,
{
    let ghost file0 = *file;
    let ghost m = heap::<K, V>(*file, degree as nat);
    let ghost good = ready_below(*file, degree as nat, *node, height as nat, key, s);
    let ghost offset = s.offset;
    let ghost whole = contents(m, offset, height as nat).insert(key, value);
    let ghost end = file.end();
    let ghost size = file.page_size as int;
    let ghost left = left_place(end, size);
    let ghost b = with_leaf_moved(m, degree as nat, offset, height as nat, key, left);
    let ghost n = node@;
    let mut first: Option<u64> = None;
    proof {
        if good {
            lemma_room::<K, V>(file0, file0, (height + 1) as nat, 1);
            lemma_new_place::<K, V>(file0, degree as nat, offset);
            lemma_moved_base(m, degree as nat, s, key, left);
        }
    }
    if height == 0 {
        return Err(Error::Encoding);
    }
    let i = node.child_index(&key);
    if i >= node.children.len() {
        proof {
            if good {
                lemma_route(n.keys, key);
                lemma_child(m, degree as nat, s, (degree - 1) as nat, 0);
                assert(false);
            }
        }
        return Err(Error::Encoding);
    }
    let child = node.children[i];
    let ghost c = child_slot(m, n, s, i as int);
    let ghost part = contents(m, child, (height - 1) as nat).insert(key, value);
    let ghost bc = with_leaf_moved(m, degree as nat, child, (height - 1) as nat, key, left);
    proof {
        lemma_route(n.keys, key);
        if good {
            lemma_child(m, degree as nat, s, (degree - 1) as nat, i as int);
            lemma_room::<K, V>(file0, file0, (height + 1) as nat, height as nat);
            lemma_added_below_bound(m, degree as nat, child, (height - 1) as nat, key);
            lemma_moved_base(m, degree as nat, c, key, left);
            assert(leaf_of(m, offset, height as nat, key) == leaf_of(
                m,
                child,
                (height - 1) as nat,
                key,
            ));
        }
    }
    let taken = match insert_into(file, degree, child, height - 1, key, value, Ghost(c)) {
        Ok(taken) => taken,
        Err(e) => {
            return Err(e);
        },
    };
    let ghost file1 = *file;
    let ghost top = if taken.over is Some {
        taken.over->Some_0@
    } else {
        heap::<K, V>(file1, degree as nat)[child]
    };
    let ghost room: nat = if taken.over is Some {
        degree as nat
    } else {
        (degree - 1) as nat
    };
    first = match link_before(
        file,
        degree,
        &node,
        i,
        height,
        taken.first,
        Ghost(m),
        Ghost(s),
        Ghost(key),
        Ghost(left),
        Ghost(top),
        Ghost(room),
        Ghost(part),
    ) {
        Ok(first) => first,
        Err(e) => {
            return Err(e);
        },
    };
    let ghost file2 = *file;
    let ghost m2 = heap::<K, V>(file2, degree as nat);
    let ghost bl = linked(m, bc, degree as nat, offset, height as nat, key, left);
    proof {
        if good {
            let m1 = heap::<K, V>(file1, degree as nat);
            assert(m2 == linked(m, m1, degree as nat, offset, height as nat, key, left));
            assert(put_ok(bl, m2, degree as nat, c, top, room, part));
            if height >= 2 {
                assert(bl == b);
            }
            assert(file2.journal@ == if links_before(
                m,
                degree as nat,
                offset,
                height as nat,
                key,
            ) {
                file1.journal@.push(leaf_before(m, offset, height as nat, key))
            } else {
                file1.journal@
            });
        }
    }
    match taken.over {
        None => {
            proof {
                if good {
                    assert(!leaf_divides(m, degree as nat, offset, height as nat, key)
                        || height >= 2) by {
                        if height == 1 {
                            assert(leaf_of(m, child, 0, key) == child);
                        }
                    }
                    assert(bl == b);
                    lemma_put_dom(bl, m2, degree as nat, c, top, room, part);
                    assert(m2[child] == top) by {
                        if links_before(m, degree as nat, offset, height as nat, key) {
                            lemma_sibling_apart(
                                m,
                                degree as nat,
                                s,
                                key,
                            );
                        }
                    }
                    assert(child_put(
                        b,
                        m2,
                        degree as nat,
                        s,
                        (degree - 1) as nat,
                        i as int,
                        part,
                    ));
                    lemma_insert_changes(b, s, key, value);
                    lemma_absorb_put(
                        b,
                        m2,
                        degree as nat,
                        s,
                        (degree - 1) as nat,
                        i as int,
                        part,
                        whole,
                    );
                    assert(m2.insert(offset, m2[offset]) =~= m2);
                    assert(!full_path(m, degree as nat, offset, height as nat, key));
                    assert(m2[offset] == n);
                    assert(m2 == settled_below(
                        m,
                        degree as nat,
                        offset,
                        height as nat,
                        key,
                        value,
                        end,
                        size,
                    )) by {
                        let m1 = heap::<K, V>(file1, degree as nat);
                        let sb = settled_below(
                            m,
                            degree as nat,
                            child,
                            (height - 1) as nat,
                            key,
                            value,
                            end,
                            size,
                        );
                        let tc = taken_top(
                            m,
                            degree as nat,
                            child,
                            (height - 1) as nat,
                            key,
                            value,
                            end,
                            size,
                        );
                        assert(m1 == sb.insert(child, tc));
                        if links_before(m, degree as nat, offset, height as nat, key) {
                            lemma_sibling_apart(m, degree as nat, s, key);
                            let last = leaf_before(m, offset, height as nat, key);
                            assert(sb.insert(child, tc).insert(last, relinked(m[last], left))
                                =~= sb.insert(last, relinked(m[last], left)).insert(
                                child,
                                tc,
                            ));
                        }
                    }
                    assert(file.journal@ =~= file0.journal@ + writes(
                        m,
                        degree as nat,
                        offset,
                        height as nat,
                        key,
                        value,
                        end,
                        size,
                    ));
                    if !leaf_full(m, degree as nat, offset, height as nat, key) {
                        assert(!links_before(m, degree as nat, offset, height as nat, key));
                    }
                }
            }
            return Ok(Below { changed: false, first });
        },
        Some(over) => {
            let ghost below = over@;
            proof {
                if good {
                    if height == 1 {
                        lemma_room::<K, V>(file0, *file, (height + 1) as nat, 2);
                    } else {
                        lemma_room::<K, V>(file0, *file, (height + 1) as nat, 1);
                    }
                    lemma_full_path_leaf(m, degree as nat, child, (height - 1) as nat, key);
                }
            }
            if height == 1 {
                proof {
                    if good {
                        assert(leaf_of(m, child, 0, key) == child);
                        assert(*file == file0);
                        assert(below.keys.len() == degree);
                        assert(!contents(m, offset, height as nat).contains_key(key));
                    }
                }
                match split_leaf(
                    file,
                    degree,
                    node,
                    i,
                    over,
                    Ghost(key),
                    Ghost(value),
                    Ghost(s),
                ) {
                    Ok(moved) => {
                        if i == 0 {
                            first = Some(moved);
                        }
                    },
                    Err(e) => {
                        return Err(e);
                    },
                }
                proof {
                    n.keys.insert_ensures(i as int, below.keys[(degree / 2) as int]);
                    if good {
                        assert(leaf_divides(m, degree as nat, offset, height as nat, key));
                        assert(file.journal@ =~= file0.journal@ + writes_below(
                            m,
                            degree as nat,
                            offset,
                            height as nat,
                            key,
                            value,
                            end,
                            size,
                        ));
                    }
                }
            } else {
                proof {
                    if good {
                        assert(b[offset] == n);
                        assert(child_slot(b, n, s, i as int) == c);
                        assert(contents(b, child, (height - 1) as nat) == contents(
                            m,
                            child,
                            (height - 1) as nat,
                        ));
                    }
                }
                match absorb_half(
                    file,
                    degree,
                    node,
                    i,
                    over,
                    Ghost(b),
                    Ghost(s),
                    Ghost(key),
                    Ghost(value),
                ) {
                    Ok(()) => {},
                    Err(e) => {
                        return Err(e);
                    },
                }
                proof {
                    n.keys.insert_ensures(i as int, below.keys[(degree / 2) as int]);
                    if good {
                        let lower = added_below(
                            m,
                            degree as nat,
                            child,
                            (height - 1) as nat,
                            key,
                        ) as int;
                        let count = file0.pages@.len() as int;
                        assert((count + lower) * size == count * size + lower * size)
                            by (nonlinear_arith);
                        assert(file2.end() == end + lower * size);
                        assert(file2.end() as u64 == right_place(
                            m,
                            degree as nat,
                            child,
                            (height - 1) as nat,
                            key,
                            end,
                            size,
                        ));
                        assert(file.journal@ =~= file0.journal@ + writes_below(
                            m,
                            degree as nat,
                            offset,
                            height as nat,
                            key,
                            value,
                            end,
                            size,
                        ));
                    }
                }
            }
        },
    }
    proof {
        if good {
            let m3 = heap::<K, V>(*file, degree as nat);
            assert(put_ok(b, m3, degree as nat, s, node@, degree as nat, whole));
            lemma_put_dom(b, m3, degree as nat, s, node@, degree as nat, whole);
            assert(node@.keys == taken_keys(m, degree as nat, offset, height as nat, key));
            assert(node@ == taken_top(m, degree as nat, offset, height as nat, key, value, end, size));
            assert(m3 == settled_below(
                m,
                degree as nat,
                offset,
                height as nat,
                key,
                value,
                end,
                size,
            ));
            assert(first == moved_first(m, degree as nat, offset, height as nat, key, end, size));
        }
    }
    Ok(Below { changed: true, first })
}

/// Puts `key` with `value` into the subtree at `offset`.
///
/// The way leads down to the leaf that the key belongs to. The leaf takes
/// the pair in; a node that is then overfull is handed back to the level
/// above, which divides it and takes in the separator, and may so be
/// overfull in its turn. A node that has changed and is not overfull is
/// written. The node at `offset` itself is handed back where it is overfull:
/// how it is divided depends on whether it is the root.
///
/// A leaf is divided into two new records, the right half in the first and
/// the left half in the second; the node above names both in place of the
/// leaf, whose record is no longer used. The leaf before the left half is
/// linked to it by the lowest node that has both below it; where there is
/// none below the node at `offset`, the new first leaf is handed back. An
/// internal node is divided in place: its right half goes to a new record.
///
/// Where the leaf has room, the leaf with the pair in it is the one node that
/// changes and no record is added.
///
/// A key that is in the subtree already is refused before anything is
/// written.
#[verifier::rlimit(30)]
pub fn insert_into<K: Index, V: Value>(
    file: &mut NodeFile,
    degree: usize,
    offset: u64,
    height: usize,
    key: K,
    value: V,
    Ghost(s): Ghost<Slot<K>>,
) -> (r: Result<Taken<K, V>, Error>)
    requires
        old(file).wf(),
    ensures
        final(file).wf(),
        final(file).page_size == old(file).page_size,
        final(file).pages@.len() >= old(file).pages@.len(),
        file_ok::<K, V>(*old(file), degree as nat) && has_room(*old(file), (height + 1) as nat)
            && shape(heap::<K, V>(*old(file), degree as nat), degree as nat, s) && s.offset
            == offset && s.height == height && in_range(key, s.low, s.high) ==> {
            let m = heap::<K, V>(*old(file), degree as nat);
            let end = old(file).end();
            let size = old(file).page_size as int;
            if contents(m, offset, height as nat).contains_key(key) {
                r is Err && r->Err_0 == Error::DuplicateKey && *final(file) == *old(file)
            } else {
                &&& r is Ok
                &&& final(file).pages@.len() == old(file).pages@.len() + added_below(
                    m,
                    degree as nat,
                    offset,
                    height as nat,
                    key,
                )
                &&& !leaf_full(m, degree as nat, offset, height as nat, key) ==> heap::<K, V>(
                    *final(file),
                    degree as nat,
                ) == m.insert(
                    leaf_of(m, offset, height as nat, key),
                    leaf_with(m[leaf_of(m, offset, height as nat, key)], key, value),
                )
                &&& r->Ok_0.over is Some == full_path(m, degree as nat, offset, height as nat, key)
                &&& r->Ok_0.first == moved_first(
                    m,
                    degree as nat,
                    offset,
                    height as nat,
                    key,
                    end,
                    size,
                )
                &&& heap::<K, V>(*final(file), degree as nat) == settled(
                    m,
                    degree as nat,
                    offset,
                    height as nat,
                    key,
                    value,
                    end,
                    size,
                )
                &&& final(file).journal@ == old(file).journal@ + writes(
                    m,
                    degree as nat,
                    offset,
                    height as nat,
                    key,
                    value,
                    end,
                    size,
                )
                &&& exact_kept::<K, V>(*old(file), *final(file), degree as nat)
                &&& r->Ok_0.over matches Some(over) ==> over@ == taken_top(
                    m,
                    degree as nat,
                    offset,
                    height as nat,
                    key,
                    value,
                    end,
                    size,
                )
                &&& r->Ok_0.over matches Some(over) ==> over@.keys == taken_keys(
                    m,
                    degree as nat,
                    offset,
                    height as nat,
                    key,
                )
                &&& r->Ok_0.over is Some ==> height == 0 ==> *final(file) == *old(file)
                &&& r->Ok_0.over is None ==> written_last(
                    m,
                    heap::<K, V>(*final(file), degree as nat),
                    *final(file),
                    offset,
                )
                &&& taken_in(
                    with_leaf_moved(
                        m,
                        degree as nat,
                        offset,
                        height as nat,
                        key,
                        left_place(end, size),
                    ),
                    heap::<K, V>(*final(file), degree as nat),
                    degree as nat,
                    s,
                    r->Ok_0.over,
                    contents(m, offset, height as nat).insert(key, value),
                )
            }
        },
    decreases height, 1nat,
{
    let ghost file0 = *file;
    let ghost m = heap::<K, V>(*file, degree as nat);
    let ghost good = file_ok::<K, V>(*file, degree as nat) && has_room(
        *file,
        (height + 1) as nat,
    ) && shape(m, degree as nat, s) && s.offset == offset && s.height == height && in_range(
        key,
        s.low,
        s.high,
    );
    let ghost whole = contents(m, offset, height as nat).insert(key, value);
    let ghost end = file.end();
    let ghost size = file.page_size as int;
    let ghost left = left_place(end, size);
    let ghost b = with_leaf_moved(m, degree as nat, offset, height as nat, key, left);
    proof {
        if good {
            lemma_room::<K, V>(file0, file0, (height + 1) as nat, 1);
            lemma_new_place::<K, V>(file0, degree as nat, offset);
            lemma_moved_base(m, degree as nat, s, key, left);
        }
    }
    let mut node = match Node::<K, V>::read(file, offset, degree) {
        Ok(node) => node,
        Err(e) => {
            return Err(e);
        },
    };
    let ghost n = node@;
    let mut first: Option<u64> = None;
    if node.is_leaf() {
        if height != 0 {
            return Err(Error::Encoding);
        }
        match node.insert_kv(key, value) {
            Ok(()) => {},
            Err(e) => {
                return Err(e);
            },
        }
        proof {
            lemma_route(n.keys, key);
            n.keys.insert_ensures(route(n.keys, key), key);
            assert(node@.keys.len() == n.keys.len() + 1);
            if good {
                lemma_leaf_put_ok(m, degree as nat, s, (degree - 1) as nat, key, value);
                assert(node@.keys =~= leaf_with(n, key, value).keys);
                assert(node@ == leaf_with(n, key, value));
                assert(*file == file0);
                assert(b == m);
            }
        }
    } else {
        if height == 0 {
            return Err(Error::Encoding);
        }
        let below = match insert_below(file, degree, &mut node, height, key, value, Ghost(s)) {
            Ok(below) => below,
            Err(e) => {
                return Err(e);
            },
        };
        first = below.first;
        if !below.changed {
            proof {
                if good {
                    lemma_route(n.keys, key);
                    let m2 = heap::<K, V>(*file, degree as nat);
                    assert(m2.insert(offset, n) =~= m2);
                    assert(!full_path(m, degree as nat, offset, height as nat, key));
                    assert(file.journal@ =~= file0.journal@ + writes(
                        m,
                        degree as nat,
                        offset,
                        height as nat,
                        key,
                        value,
                        end,
                        size,
                    ));
                }
            }
            return Ok(Taken { over: None, first });
        }
    }
    let ghost file3 = *file;
    let ghost m3 = heap::<K, V>(*file, degree as nat);
    proof {
        if good {
            lemma_route(n.keys, key);
            assert(put_ok(b, m3, degree as nat, s, node@, degree as nat, whole));
            lemma_put_dom(b, m3, degree as nat, s, node@, degree as nat, whole);
            lemma_put_top(b, m3, degree as nat, s, node@, degree as nat, whole);
            assert(node@.keys.len() == n.keys.len() + 1);
            assert(height > 0 ==> full_path(
                m,
                degree as nat,
                n.children[route(n.keys, key)],
                (height - 1) as nat,
                key,
            ));
            if height > 0 {
                lemma_full_path_leaf(
                    m,
                    degree as nat,
                    n.children[route(n.keys, key)],
                    (height - 1) as nat,
                    key,
                );
                assert(leaf_of(m, offset, height as nat, key) == leaf_of(
                    m,
                    n.children[route(n.keys, key)],
                    (height - 1) as nat,
                    key,
                ));
            }
            assert(full_path(m, degree as nat, offset, height as nat, key) == (n.keys.len() + 1
                == degree));
        }
    }
    if node.is_overflow() {
        return Ok(Taken { over: Some(node), first });
    }
    node.set_dirty();
    proof {
        if good {
            assert(node_at::<K, V>(file3, degree as nat, offset) is Some);
            lemma_node_encoding_parts::<K, V>(node@, degree as nat);
            assert(node.writable(*file));
        }
    }
    match node.write(file) {
        Ok(_) => {},
        Err(e) => {
            return Err(e);
        },
    }
    proof {
        if good {
            lemma_heap_after_write::<K, V>(file3, *file, node@, degree as nat);
            assert(file.journal@ =~= file0.journal@ + writes(
                m,
                degree as nat,
                offset,
                height as nat,
                key,
                value,
                end,
                size,
            ));
            lemma_put_written(
                b,
                m3,
                degree as nat,
                s,
                node@,
                degree as nat,
                (degree - 1) as nat,
                whole,
            );
        }
    }
    Ok(Taken { over: None, first })
}

/// The second record behind the end of a file with room for two records more
/// is not in the file, and does not start at offset zero.
pub proof fn lemma_new_place<K: Index, V: Value>(file: NodeFile, degree: nat, offset: u64)
    requires
        file_ok::<K, V>(file, degree),
        has_room(file, 1),
        heap::<K, V>(file, degree).dom().contains(offset),
    ensures
        !heap::<K, V>(file, degree).dom().contains(left_place(file.end(), file.page_size as int)),
        left_place(file.end(), file.page_size as int) != 0,
        left_place(file.end(), file.page_size as int) == file.end() + file.page_size,
{
    let size = file.page_size as int;
    let count = file.pages@.len() as int;
    assert(node_at::<K, V>(file, degree, offset) is Some);
    assert(count >= 1);
    assert((count + 1) * size == count * size + size && count * size >= size) by (nonlinear_arith)
        requires
            count >= 1,
            size > 0,
    ;
    lemma_record_start(count + 1, size);
    let left = left_place(file.end(), size);
    assert(file.index_of(left) == count + 1);
    assert(file.page_at(left) is None);
}

/// Divides the overfull root. Both halves go to new records at the end of
/// the file, each with its children told of their new parent: the right half
/// to the first new record, the left half to the one behind it. The root is
/// then written anew at offset zero, where it stays: an internal node with
/// the separator, the key at the middle index of the overfull root, as its
/// one key, and the left half and the right half as its children. The tree
/// is one level higher.
pub fn split_root<K: Index, V: Value>(
    file: &mut NodeFile,
    degree: usize,
    over: Node<K, V>,
    Ghost(m): Ghost<Heap<K, V>>,
    Ghost(height): Ghost<nat>,
    Ghost(expected): Ghost<Map<K, V>>,
) -> (r: Result<Node<K, V>, Error>)
    requires
        old(file).wf(),
    ensures
        final(file).wf(),
        final(file).page_size == old(file).page_size,
        final(file).pages@.len() >= old(file).pages@.len(),
        file_ok::<K, V>(*old(file), degree as nat) && has_room(*old(file), 2) && overfull(
            over,
            degree as nat,
            root_slot(height),
        ) && heap::<K, V>(*old(file), degree as nat).dom().contains(0) && put_ok(
            m,
            heap::<K, V>(*old(file), degree as nat),
            degree as nat,
            root_slot(height),
            over@,
            degree as nat,
            expected,
        ) ==> {
            &&& r matches Ok(root)
            &&& final(file).pages@.len() == old(file).pages@.len() + 2
            &&& root@ == new_root::<K, V>(
                over@.keys[(degree / 2) as int],
                (old(file).end() + old(file).page_size) as u64,
                old(file).end() as u64,
            )
            &&& heap::<K, V>(*final(file), degree as nat) == grown(
                heap::<K, V>(*old(file), degree as nat),
                degree as nat,
                over@,
                (old(file).end() + old(file).page_size) as u64,
                old(file).end() as u64,
            )
            &&& shape(heap::<K, V>(*final(file), degree as nat), degree as nat, root_slot(height + 1))
            &&& contents(heap::<K, V>(*final(file), degree as nat), 0, height + 1) == expected
            &&& heap::<K, V>(*final(file), degree as nat)[0] == root@
            &&& final(file).journal@ == old(file).journal@ + growing_writes(
                over@,
                (old(file).end() + old(file).page_size) as u64,
                old(file).end() as u64,
                (degree / 2) as int,
            )
            &&& exact_kept::<K, V>(*old(file), *final(file), degree as nat)
            &&& final(file).journal@.len() > 0
            &&& final(file).journal@.last() == 0
            &&& !root.is_dirty
            &&& root.degree == degree
        },
{
    let ghost m2 = heap::<K, V>(*file, degree as nat);
    let ghost s0 = root_slot::<K>(height);
    let ghost good = file_ok::<K, V>(*file, degree as nat) && has_room(*file, 2) && overfull(
        over,
        degree as nat,
        s0,
    ) && m2.dom().contains(0) && put_ok(m, m2, degree as nat, s0, over@, degree as nat, expected);
    let ghost before = over@;
    let ghost file0 = *file;
    let mut left = over;
    proof {
        if good {
            lemma_room::<K, V>(file0, file0, 2, 1);
        }
    }
    let (separator, right_offset) = match hand_over(
        file,
        degree,
        &mut left,
        Ghost(m),
        Ghost(s0),
        Ghost(expected),
    ) {
        Ok(pair) => pair,
        Err(e) => {
            return Err(e);
        },
    };
    let ghost file2 = *file;
    let left_offset = file.end_offset();
    left.set_offset(left_offset);
    left.set_parent_offset(0);
    left.is_root = false;
    proof {
        if good {
            let size = file0.page_size as int;
            let count = file0.pages@.len() as int;
            assert(node_at::<K, V>(file0, degree as nat, 0) is Some);
            assert(left_offset == right_offset + size && right_offset == count * size
                && right_offset > 0) by (nonlinear_arith)
                requires
                    left_offset == (count + 1) * size,
                    right_offset == count * size,
                    count >= 1,
                    size > 0,
            ;
            lemma_record_start(count + 1, size);
            assert(file0.index_of(left_offset) == count + 1);
            assert(file0.page_at(left_offset) is None);
            assert(!m2.dom().contains(left_offset));
            let lh = moved_top(
                left_half(before, (degree / 2) as int, right_offset),
                left_offset,
                0,
            );
            assert(left@ == lh);
            lemma_room::<K, V>(file0, file2, 2, 1);
            lemma_node_encoding_parts::<K, V>(left@, degree as nat);
            assert(left@.canonical(degree as nat));
            assert(left.fits());
            assert(left.writable(*file));
            assert forall|j: int| 0 <= j < left.children@.len() implies heap::<K, V>(
                *file,
                left.degree as nat,
            ).dom().contains(#[trigger] left.children@[j]) && left.children@[j] != left.offset by {
                assert(m2.dom().contains(left.children@[j]));
            }
            assert(placeable(left, *file));
        }
    }
    match place_node(file, &mut left) {
        Ok(_) => {},
        Err(e) => {
            return Err(e);
        },
    }
    let ghost file4 = *file;
    let mut keys: Vec<K> = Vec::new();
    keys.push(separator);
    let mut children: Vec<u64> = Vec::new();
    children.push(left_offset);
    children.push(right_offset);
    let mut root: Node<K, V> = Node {
        node_type: NodeType::Internal,
        is_root: true,
        is_dirty: true,
        degree,
        parent_offset: 0,
        offset: 0,
        keys,
        values: Vec::new(),
        children,
    };
    proof {
        if good {
            assert(heap::<K, V>(file2, degree as nat).dom().contains(0));
            assert(heap::<K, V>(file4, degree as nat).dom().contains(0));
            assert(node_at::<K, V>(file4, degree as nat, 0) is Some);
            lemma_node_encoding_parts::<K, V>(root@, degree as nat);
            assert(root.writable(*file));
        }
    }
    match root.write(file) {
        Ok(_) => {},
        Err(e) => {
            return Err(e);
        },
    }
    proof {
        if good {
            lemma_heap_after_write::<K, V>(file4, *file, root@, degree as nat);
            let nr = new_root::<K, V>(separator, left_offset, right_offset);
            assert(root@.keys =~= nr.keys);
            assert(root@.children =~= nr.children);
            assert(root@.values =~= nr.values);
            assert(root@ == nr);
            assert(left@.children == left_half(before, (degree / 2) as int, right_offset).children);
            assert(file.journal@ =~= file0.journal@ + growing_writes(
                before,
                left_offset,
                right_offset,
                (degree / 2) as int,
            ));
            assert(heap::<K, V>(*file, degree as nat) == grown(
                m2,
                degree as nat,
                before,
                left_offset,
                right_offset,
            ));
            lemma_root_split(
                m,
                m2,
                degree as nat,
                height,
                before,
                left_offset,
                right_offset,
                expected,
            );
        }
    }
    Ok(root)
}

} // verus!
