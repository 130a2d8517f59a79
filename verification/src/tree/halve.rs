//! Dividing a full leaf into two new records, and linking the leaf before it
//! to the first of them.

use vstd::prelude::*;
use crate::error::Error;
use crate::fm::nodes::{lemma_record_start, NodeFile};
use crate::index::Index;
use crate::node_type::NodeType;
use crate::nodes::crud::{lemma_route, route};
use crate::nodes::io::{
    exact_kept, heap, lemma_heap_after_write, lemma_node_encoding_parts, node_at,
};
use crate::nodes::{Node, NodeView};
use crate::tree::absorb::put_ok;
use crate::tree::divide::{left_half, right_half};
use crate::tree::grow::leaf_with;
use crate::tree::insert::{file_ok, has_room};
use crate::nodes::io::Heap;
use crate::tree::moved::{
    absorbed_halves, first_moves, last_leaf, leaf_halved, lemma_flat_children, lemma_leaf_halved,
    lemma_put_rebased, lemma_sibling_kept, relinked, with_leaf_moved,
};
use crate::tree::relocate::moved_top;
use crate::tree::reparent::lemma_child;
use crate::tree::shape::{child_slot, contents, in_range, shape, Slot};
use crate::value::Value;

verus! {

/// Links the last leaf of the subtree of the given height at `offset` to the
/// leaf at `next`, and writes it. The way leads through the last children.
pub fn relink_last<K: Index, V: Value>(
    file: &mut NodeFile,
    degree: usize,
    offset: u64,
    height: usize,
    next: u64,
    Ghost(s): Ghost<Slot<K>>,
) -> (r: Result<(), Error>)
    requires
        old(file).wf(),
    ensures
        final(file).wf(),
        final(file).page_size == old(file).page_size,
        final(file).pages@.len() >= old(file).pages@.len(),
        file_ok::<K, V>(*old(file), degree as nat) && shape(
            heap::<K, V>(*old(file), degree as nat),
            degree as nat,
            s,
        ) && s.offset == offset && s.height == height && next != 0 ==> {
            let m = heap::<K, V>(*old(file), degree as nat);
            let last = last_leaf(m, offset, height as nat);
            &&& r is Ok
            &&& final(file).pages@.len() == old(file).pages@.len()
            &&& heap::<K, V>(*final(file), degree as nat) == m.insert(
                last,
                relinked(m[last], next),
            )
            &&& final(file).journal@ == old(file).journal@.push(last)
            &&& exact_kept::<K, V>(*old(file), *final(file), degree as nat)
        },
    decreases height,
{
    let ghost file0 = *file;
    let ghost m = heap::<K, V>(*file, degree as nat);
    let ghost good = file_ok::<K, V>(*file, degree as nat) && shape(m, degree as nat, s)
        && s.offset == offset && s.height == height && next != 0;
    let mut node = match Node::<K, V>::read(file, offset, degree) {
        Ok(node) => node,
        Err(e) => {
            return Err(e);
        },
    };
    let ghost n = node@;
    if node.is_leaf() {
        if height != 0 {
            return Err(Error::Encoding);
        }
        node.node_type = NodeType::Leaf(Some(next));
        node.set_dirty();
        proof {
            if good {
                assert(node@ == relinked(n, next));
                assert(node_at::<K, V>(file0, degree as nat, offset) is Some);
                lemma_node_encoding_parts::<K, V>(node@, degree as nat);
                assert(node.writable(*file));
            }
        }
        match node.write(file) {
            Ok(_) => {},
            Err(e) => {
                return Err(e);
            },
        }
        proof {
            if good {
                lemma_heap_after_write::<K, V>(file0, *file, node@, degree as nat);
            }
        }
        Ok(())
    } else {
        if height == 0 || node.children.len() == 0 {
            return Err(Error::Encoding);
        }
        let k = node.children.len() - 1;
        let child = node.children[k];
        let ghost c = child_slot(m, n, s, k as int);
        proof {
            if good {
                lemma_child(m, degree as nat, s, (degree - 1) as nat, k as int);
                assert(n.children.last() == child);
            }
        }
        relink_last::<K, V>(file, degree, child, height - 1, next, Ghost(c))
    }
}

/// The records written, in the order of the writes, when the full leaf that
/// is child `i` of the node `n` is divided: the right half, the left half
/// that is linked to it, and then the leaf before the two, if the node has
/// one, which is linked to the left half.
pub open spec fn leaf_writes<K, V>(n: NodeView<K, V>, i: int, left: u64, right: u64) -> Seq<u64> {
    if i > 0 {
        seq![right, left, n.children[i - 1]]
    } else {
        seq![right, left]
    }
}

/// Whether `over` is the full leaf that is child `i` of `parent`, the top
/// node of slot `s`, with the pair of the absent `key` put in, and the file
/// has room for its two halves.
pub open spec fn leaf_to_halve<K: Index, V: Value>(
    file: NodeFile,
    degree: nat,
    parent: Node<K, V>,
    i: int,
    over: Node<K, V>,
    key: K,
    value: V,
    s: Slot<K>,
) -> bool {
    let m = heap::<K, V>(file, degree);
    &&& file_ok::<K, V>(file, degree)
    &&& has_room(file, 2)
    &&& shape(m, degree, s)
    &&& s.height == 1
    &&& parent@ == m[s.offset]
    &&& parent.degree == degree
    &&& i == route(parent.keys@, key)
    &&& in_range(key, s.low, s.high)
    &&& !contents(m, s.offset, s.height).contains_key(key)
    &&& over@ == leaf_with(m[parent.children@[i]], key, value)
    &&& over.degree == degree
    &&& over.keys@.len() == degree
    &&& over.node_type.normal() == over.node_type
}

/// Divides a full leaf that has taken in one pair more, below the node
/// `parent` whose child `i` it is.
///
/// Both halves go to new records at the end of the file: the right half to
/// the first, the left half, which is linked to it, to the second. The leaf
/// before the two below the same node, if there is one, is then linked to
/// the left half; where the leaf was the first below the node, the leaf
/// before it lies elsewhere and is left to the caller, to whom the offset of
/// the left half is returned. The node takes in the separator, the key at
/// the middle index of the leaf, and names the two halves in place of the
/// leaf; it is still to be written, after the halves. The record of the leaf
/// itself stays as it is and is no longer used: until the node above is
/// written the tree on file is the tree as it was.
pub fn split_leaf<K: Index, V: Value>(
    file: &mut NodeFile,
    degree: usize,
    parent: &mut Node<K, V>,
    i: usize,
    over: Node<K, V>,
    Ghost(key): Ghost<K>,
    Ghost(value): Ghost<V>,
    Ghost(s): Ghost<Slot<K>>,
) -> (r: Result<u64, Error>)
    requires
        old(file).wf(),
    ensures
        final(file).wf(),
        final(file).page_size == old(file).page_size,
        final(file).pages@.len() >= old(file).pages@.len(),
        final(parent).degree == old(parent).degree,
        final(parent).offset == old(parent).offset,
        leaf_to_halve(*old(file), degree as nat, *old(parent), i as int, over, key, value, s) ==> {
            let m = heap::<K, V>(*old(file), degree as nat);
            let right = old(file).end() as u64;
            let left = (old(file).end() + old(file).page_size) as u64;
            &&& r == Ok::<u64, Error>(left)
            &&& final(file).pages@.len() == old(file).pages@.len() + 2
            &&& heap::<K, V>(*final(file), degree as nat) == leaf_halved(
                m,
                degree as nat,
                s.offset,
                key,
                value,
                left,
                right,
            )
            &&& final(file).journal@ == old(file).journal@ + leaf_writes(
                m[s.offset],
                i as int,
                left,
                right,
            )
            &&& exact_kept::<K, V>(*old(file), *final(file), degree as nat)
            &&& final(parent)@ == absorbed_halves(
                m[s.offset],
                i as int,
                over@.keys[(degree / 2) as int],
                left,
                right,
            )
            &&& final(parent).is_dirty
            &&& final(parent).node_type == old(parent).node_type
            &&& put_ok(
                with_leaf_moved(m, degree as nat, s.offset, s.height, key, left),
                heap::<K, V>(*final(file), degree as nat),
                degree as nat,
                s,
                final(parent)@,
                degree as nat,
                contents(m, s.offset, s.height).insert(key, value),
            )
        },
{
    let ghost file0 = *file;
    let ghost m = heap::<K, V>(*file, degree as nat);
    let ghost n = parent@;
    let ghost good = leaf_to_halve(*file, degree as nat, *parent, i as int, over, key, value, s);
    let ghost before = over@;
    let ghost mid = (degree / 2) as int;
    if over.degree != degree || degree < 3 || over.keys.len() != degree || !over.is_leaf()
        || over.values.len() != over.keys.len() || over.children.len() != 0 || i
        >= parent.children.len() || parent.children.len() - 1 != parent.keys.len() {
        proof {
            if good {
                lemma_route(n.keys, key);
                crate::tree::rebuild::lemma_shape_parts(m, degree as nat, s, (degree - 1) as nat);
                lemma_child(m, degree as nat, s, (degree - 1) as nat, i as int);
                let c = child_slot(m, n, s, i as int);
                crate::tree::rebuild::lemma_shape_parts(m, degree as nat, c, (degree - 1) as nat);
                lemma_route(m[n.children[i as int]].keys, key);
                m[n.children[i as int]].keys.insert_ensures(
                    route(m[n.children[i as int]].keys, key),
                    key,
                );
                assert(false);
            }
        }
        return Err(Error::Encoding);
    }
    let right_offset = file.end_offset();
    let mut left = over;
    let (separator, mut right) = left.divide(right_offset);
    let ghost size = file0.page_size as int;
    let ghost count = file0.pages@.len() as int;
    let ghost left_at = (file0.end() + file0.page_size) as u64;
    proof {
        if good {
            lemma_route(n.keys, key);
            crate::tree::rebuild::lemma_shape_parts(m, degree as nat, s, (degree - 1) as nat);
            lemma_child(m, degree as nat, s, (degree - 1) as nat, i as int);
            lemma_flat_children(m, degree as nat, s, (degree - 1) as nat);
            let c = child_slot(m, n, s, i as int);
            crate::tree::rebuild::lemma_shape_parts(m, degree as nat, c, (degree - 1) as nat);
            assert(node_at::<K, V>(file0, degree as nat, s.offset) is Some);
            assert(count >= 1);
            assert((count + 2) * size <= u64::MAX);
            assert(right_offset == count * size && right_offset > 0 && (count + 1) * size
                == right_offset + size && right_offset + size + size <= u64::MAX) by (nonlinear_arith)
                requires
                    right_offset == count * size,
                    (count + 2) * size <= u64::MAX,
                    count >= 1,
                    size > 0,
            ;
            assert(left_at == right_offset + size);
            lemma_record_start(count + 1, size);
            assert(file0.index_of(left_at) == count + 1);
            assert(file0.page_at(left_at) is None);
            assert(!m.dom().contains(left_at));
            assert(!m.dom().contains(right_offset));
            let over_at = moved_top(before, left_at, s.offset);
            let rh = right_half(over_at, mid, right_offset);
            assert(right@.keys =~= rh.keys);
            assert(right@.values =~= rh.values);
            assert(right@.children =~= rh.children);
            assert(right@ == rh);
            lemma_node_encoding_parts::<K, V>(right@, degree as nat);
            assert(right@.canonical(degree as nat));
            assert(right.writable(*file));
        }
    }
    match right.write(file) {
        Ok(_) => {},
        Err(e) => {
            return Err(e);
        },
    }
    let ghost file1 = *file;
    let left_offset = file.end_offset();
    left.set_offset(left_offset);
    proof {
        if good {
            lemma_heap_after_write::<K, V>(file0, file1, right@, degree as nat);
            assert(left_offset == left_at) by (nonlinear_arith)
                requires
                    left_offset == (count + 1) * size,
                    left_at == count * size + size,
            ;
            let over_at = moved_top(before, left_at, s.offset);
            let lh = left_half(over_at, mid, right_offset);
            assert(left@.keys =~= lh.keys);
            assert(left@.values =~= lh.values);
            assert(left@.children =~= lh.children);
            assert(left@ == lh);
            lemma_node_encoding_parts::<K, V>(left@, degree as nat);
            assert(left@.canonical(degree as nat));
            assert(left.writable(*file));
        }
    }
    match left.write(file) {
        Ok(_) => {},
        Err(e) => {
            return Err(e);
        },
    }
    let ghost file2 = *file;
    proof {
        if good {
            lemma_heap_after_write::<K, V>(file1, file2, left@, degree as nat);
        }
    }
    if i > 0 {
        let before_at = parent.children[i - 1];
        let mut leaf = match Node::<K, V>::read(file, before_at, degree) {
            Ok(leaf) => leaf,
            Err(e) => {
                return Err(e);
            },
        };
        let ghost old_leaf = leaf@;
        leaf.node_type = NodeType::Leaf(Some(left_offset));
        leaf.set_dirty();
        proof {
            if good {
                lemma_child(m, degree as nat, s, (degree - 1) as nat, i - 1);
                let cb = child_slot(m, n, s, i - 1);
                crate::tree::rebuild::lemma_shape_parts(m, degree as nat, cb, (degree - 1) as nat);
                assert(heap::<K, V>(file2, degree as nat)[before_at] == m[before_at]);
                assert(old_leaf == m[before_at]);
                assert(leaf@ == relinked(m[before_at], left_at));
                assert(node_at::<K, V>(file2, degree as nat, before_at) is Some);
                lemma_node_encoding_parts::<K, V>(leaf@, degree as nat);
                assert(leaf@.canonical(degree as nat));
                assert(leaf.writable(*file));
            }
        }
        match leaf.write(file) {
            Ok(_) => {},
            Err(e) => {
                return Err(e);
            },
        }
        proof {
            if good {
                lemma_heap_after_write::<K, V>(file2, *file, leaf@, degree as nat);
            }
        }
    }
    parent.children[i] = left_offset;
    parent.insert_child(i, separator, right_offset);
    proof {
        if good {
            assert(parent@.keys =~= absorbed_halves(n, i as int, separator, left_at, right_offset).keys);
            assert(parent@.children =~= absorbed_halves(
                n,
                i as int,
                separator,
                left_at,
                right_offset,
            ).children);
            assert(parent@ == absorbed_halves(n, i as int, separator, left_at, right_offset));
            assert(heap::<K, V>(*file, degree as nat) == leaf_halved(
                m,
                degree as nat,
                s.offset,
                key,
                value,
                left_at,
                right_offset,
            ));
            assert(file.journal@ =~= file0.journal@ + leaf_writes(
                n,
                i as int,
                left_at,
                right_offset,
            ));
            let c = child_slot(m, n, s, i as int);
            assert(crate::tree::shape::leaf_of(m, n.children[i as int], 0, key) == n.children[i as int]);
            lemma_route(m[n.children[i as int]].keys, key);
            m[n.children[i as int]].keys.insert_ensures(
                route(m[n.children[i as int]].keys, key),
                key,
            );
            lemma_leaf_halved(m, degree as nat, s, key, value, left_at, right_offset);
        }
    }
    Ok(left_offset)
}

/// Whether the child before child `i` is to be linked anew once `key` is put
/// in below the node at `offset`: the leaf that is divided is the first leaf
/// below child `i`, and child `i` is not the first child.
pub open spec fn links_before<K: Index, V>(
    m: Heap<K, V>,
    degree: nat,
    offset: u64,
    height: nat,
    key: K,
) -> bool {
    let n = m[offset];
    let i = route(n.keys, key);
    height > 0 && i > 0 && first_moves(m, degree, n.children[i], (height - 1) as nat, key)
}

/// The leaf that is linked anew where [`links_before`] holds: the last leaf
/// below the child before the one on the key's way.
pub open spec fn leaf_before<K: Index, V>(m: Heap<K, V>, offset: u64, height: nat, key: K) -> u64 {
    let n = m[offset];
    let i = route(n.keys, key);
    last_leaf(m, n.children[i - 1], (height - 1) as nat)
}

/// The file `now` with the leaf before the moved one linked to `left`, where
/// there is one to link below the node at `offset`.
pub open spec fn linked<K: Index, V>(
    m: Heap<K, V>,
    now: Heap<K, V>,
    degree: nat,
    offset: u64,
    height: nat,
    key: K,
    left: u64,
) -> Heap<K, V> {
    if links_before(m, degree, offset, height, key) {
        let last = leaf_before(m, offset, height, key);
        now.insert(last, relinked(m[last], left))
    } else {
        now
    }
}

/// Whether child `i` of `parent`, the top node of slot `s`, has taken in the
/// pair of `key`, with `moved` telling whether its first leaf has moved to
/// `left`, so that the leaf before it may have to be linked anew.
pub open spec fn child_taken<K: Index, V: Value>(
    file: NodeFile,
    degree: nat,
    parent: Node<K, V>,
    i: int,
    moved: Option<u64>,
    m: Heap<K, V>,
    s: Slot<K>,
    key: K,
    left: u64,
    top: NodeView<K, V>,
    room: nat,
    expected: Map<K, V>,
) -> bool {
    let n = m[s.offset];
    let h = (s.height - 1) as nat;
    &&& file_ok::<K, V>(file, degree)
    &&& shape(m, degree, s)
    &&& s.height >= 1
    &&& parent@ == n
    &&& i == route(n.keys, key)
    &&& !m.dom().contains(left)
    &&& left != 0
    &&& moved == if first_moves(m, degree, n.children[i], h, key) {
        Some(left)
    } else {
        None
    }
    &&& put_ok(
        with_leaf_moved(m, degree, n.children[i], h, key, left),
        heap::<K, V>(file, degree),
        degree,
        child_slot(m, n, s, i),
        top,
        room,
        expected,
    )
}

/// Links the leaf before a moved leaf to it, where the node has that leaf
/// below it: where the first leaf below child `i` has moved and child `i` is
/// not the first child, the last leaf below the child before it is linked to
/// the new first leaf and written. Otherwise nothing is written, and the
/// move is handed on to the level above, where child `i` is the first child.
pub fn link_before<K: Index, V: Value>(
    file: &mut NodeFile,
    degree: usize,
    parent: &Node<K, V>,
    i: usize,
    height: usize,
    moved: Option<u64>,
    Ghost(m): Ghost<Heap<K, V>>,
    Ghost(s): Ghost<Slot<K>>,
    Ghost(key): Ghost<K>,
    Ghost(left): Ghost<u64>,
    Ghost(top): Ghost<NodeView<K, V>>,
    Ghost(room): Ghost<nat>,
    Ghost(expected): Ghost<Map<K, V>>,
) -> (r: Result<Option<u64>, Error>)
    requires
        old(file).wf(),
    ensures
        final(file).wf(),
        final(file).page_size == old(file).page_size,
        final(file).pages@.len() >= old(file).pages@.len(),
        moved is None || i == 0 ==> *final(file) == *old(file) && r == Ok::<Option<u64>, Error>(
            moved,
        ),
        child_taken(
            *old(file),
            degree as nat,
            *parent,
            i as int,
            moved,
            m,
            s,
            key,
            left,
            top,
            room,
            expected,
        ) && s.height == height ==> {
            let now = heap::<K, V>(*old(file), degree as nat);
            let n = m[s.offset];
            let bc = with_leaf_moved(
                m,
                degree as nat,
                n.children[i as int],
                (height - 1) as nat,
                key,
                left,
            );
            &&& r == Ok::<Option<u64>, Error>(
                if i == 0 {
                    moved
                } else {
                    None
                },
            )
            &&& final(file).pages@.len() == old(file).pages@.len()
            &&& heap::<K, V>(*final(file), degree as nat) == linked(
                m,
                now,
                degree as nat,
                s.offset,
                height as nat,
                key,
                left,
            )
            &&& final(file).journal@ == if links_before(
                m,
                degree as nat,
                s.offset,
                height as nat,
                key,
            ) {
                old(file).journal@.push(leaf_before(m, s.offset, height as nat, key))
            } else {
                old(file).journal@
            }
            &&& exact_kept::<K, V>(*old(file), *final(file), degree as nat)
            &&& put_ok(
                linked(m, bc, degree as nat, s.offset, height as nat, key, left),
                heap::<K, V>(*final(file), degree as nat),
                degree as nat,
                child_slot(m, n, s, i as int),
                top,
                room,
                expected,
            )
        },
{
    let ghost good = child_taken(
        *file,
        degree as nat,
        *parent,
        i as int,
        moved,
        m,
        s,
        key,
        left,
        top,
        room,
        expected,
    ) && s.height == height;
    let ghost m1 = heap::<K, V>(*file, degree as nat);
    let ghost n = m[s.offset];
    match moved {
        None => Ok(None),
        Some(first) => {
            if i == 0 {
                return Ok(Some(first));
            }
            if height == 0 || i >= parent.children.len() {
                proof {
                    if good {
                        lemma_route(n.keys, key);
                        crate::tree::rebuild::lemma_shape_parts(
                            m,
                            degree as nat,
                            s,
                            (degree - 1) as nat,
                        );
                        assert(false);
                    }
                }
                return Err(Error::Encoding);
            }
            let before_at = parent.children[i - 1];
            let ghost sl = child_slot(m, n, s, i - 1);
            let ghost bc = with_leaf_moved(
                m,
                degree as nat,
                n.children[i as int],
                (height - 1) as nat,
                key,
                left,
            );
            proof {
                if good {
                    lemma_sibling_kept(
                        m,
                        m1,
                        degree as nat,
                        s,
                        key,
                        left,
                        top,
                        room,
                        expected,
                    );
                    let last = leaf_before(m, s.offset, height as nat, key);
                    lemma_put_rebased(
                        bc,
                        m1,
                        degree as nat,
                        child_slot(m, n, s, i as int),
                        top,
                        room,
                        expected,
                        (degree - 1) as nat,
                        last,
                        relinked(m[last], left),
                    );
                }
            }
            match relink_last::<K, V>(file, degree, before_at, height - 1, first, Ghost(sl)) {
                Ok(()) => Ok(None),
                Err(e) => Err(e),
            }
        },
    }
}

} // verus!
