//! Telling nodes of a new parent.

use vstd::prelude::*;
use crate::error::Error;
use crate::fm::nodes::NodeFile;
use crate::index::Index;
use crate::nodes::crud::{lemma_route, route};
use crate::nodes::io::{exact_kept, heap, lemma_heap_after_write, lemma_node_encoding_parts, node_at, Heap};
use crate::nodes::layout::{layout_fits, node_size};
use crate::nodes::{Node, NodeView};
use crate::tree::frame::{lemma_frame, lemma_reach_dom, lemma_reach_top, same_inside};
use crate::tree::shape::{child_slot, contents, leftmost, reach, shape_with, Slot};
use crate::value::Value;

verus! {

/// The node with another parent recorded.
pub open spec fn with_parent<K, V>(n: NodeView<K, V>, parent: u64) -> NodeView<K, V> {
    NodeView { parent_offset: parent, ..n }
}

/// The file with `parent` recorded as the parent in each of the nodes at
/// `children`.
pub open spec fn reparented<K, V>(m: Heap<K, V>, children: Seq<u64>, parent: u64) -> Heap<K, V>
    decreases children.len(),
{
    if children.len() == 0 {
        m
    } else {
        let before = reparented(m, children.drop_last(), parent);
        before.insert(children.last(), with_parent(before[children.last()], parent))
    }
}

/// Each child of a well-formed internal node is a well-formed subtree that
/// does not reach the node itself.
pub proof fn lemma_child<K: Index, V: Value>(
    m: Heap<K, V>,
    degree: nat,
    s: Slot<K>,
    room: nat,
    i: int,
)
    requires
        shape_with(m, degree, s, room),
        s.height > 0,
        0 <= i < m[s.offset].children.len(),
    ensures
        m[s.offset].children[i] != 0,
        shape_with(m, degree, child_slot(m, m[s.offset], s, i), (degree - 1) as nat),
        !reach(m, m[s.offset].children[i], (s.height - 1) as nat).contains(s.offset),
        m[s.offset].children.len() == m[s.offset].keys.len() + 1,
{
    let n = m[s.offset];
    assert(n.children[i] != 0);
    assert(shape_with(m, degree, child_slot(m, n, s, i), (degree - 1) as nat));
    assert(!reach(m, n.children[i], (s.height - 1) as nat).contains(s.offset));
}

/// Writing to the top node of a well-formed subtree leaves each child what
/// it was: well-formed in its slot, with the same nodes, first leaf and
/// contents.
pub proof fn lemma_child_under_new_top<K: Index, V: Value>(
    m: Heap<K, V>,
    degree: nat,
    s: Slot<K>,
    room: nat,
    top: NodeView<K, V>,
    i: int,
)
    requires
        shape_with(m, degree, s, room),
        s.height > 0,
        0 <= i < m[s.offset].children.len(),
    ensures
        ({
            let m2 = m.insert(s.offset, top);
            let c = child_slot(m, m[s.offset], s, i);
            &&& shape_with(m2, degree, c, (degree - 1) as nat)
            &&& reach(m2, c.offset, c.height) == reach(m, c.offset, c.height)
            &&& leftmost(m2, c.offset, c.height) == leftmost(m, c.offset, c.height)
            &&& contents(m2, c.offset, c.height) == contents(m, c.offset, c.height)
        }),
{
    lemma_child(m, degree, s, room, i);
    let c = child_slot(m, m[s.offset], s, i);
    let m2 = m.insert(s.offset, top);
    lemma_reach_dom(m, degree, c, (degree - 1) as nat);
    assert(same_inside(m, m2, reach(m, c.offset, c.height)));
    lemma_frame(m, m2, degree, c, (degree - 1) as nat);
}

/// Recording another parent in the top node of a well-formed subtree leaves
/// the nodes it reaches and its first leaf as they were.
pub proof fn lemma_reparent_reach<K: Index, V: Value>(
    m: Heap<K, V>,
    degree: nat,
    s: Slot<K>,
    room: nat,
    parent: u64,
)
    requires
        shape_with(m, degree, s, room),
    ensures
        ({
            let m2 = m.insert(s.offset, with_parent(m[s.offset], parent));
            &&& reach(m2, s.offset, s.height) == reach(m, s.offset, s.height)
            &&& leftmost(m2, s.offset, s.height) == leftmost(m, s.offset, s.height)
        }),
{
    let n = m[s.offset];
    let top = with_parent(n, parent);
    let m2 = m.insert(s.offset, top);
    if s.height > 0 {
        let h = (s.height - 1) as nat;
        assert forall|i: int| 0 <= i < n.children.len() implies reach(
            m2,
            #[trigger] n.children[i],
            h,
        ) == reach(m, n.children[i], h) by {
            lemma_child_under_new_top(m, degree, s, room, top, i);
        }
        assert(m2[s.offset].children == n.children);
        assert(reach(m2, s.offset, s.height) =~= reach(m, s.offset, s.height));
        lemma_child_under_new_top(m, degree, s, room, top, 0);
    }
}

/// Recording another parent in the top node of a well-formed subtree leaves
/// its contents as they were.
pub proof fn lemma_reparent_contents<K: Index, V: Value>(
    m: Heap<K, V>,
    degree: nat,
    s: Slot<K>,
    room: nat,
    parent: u64,
)
    requires
        shape_with(m, degree, s, room),
    ensures
        contents(m.insert(s.offset, with_parent(m[s.offset], parent)), s.offset, s.height)
            == contents(m, s.offset, s.height),
{
    let n = m[s.offset];
    let top = with_parent(n, parent);
    let m2 = m.insert(s.offset, top);
    if s.height > 0 {
        let h = (s.height - 1) as nat;
        assert forall|k: K|
            contents(m2, n.children[route(n.keys, k)], h) == contents(
                m,
                n.children[route(n.keys, k)],
                h,
            ) by {
            lemma_route(n.keys, k);
            lemma_child(m, degree, s, room, route(n.keys, k));
            lemma_child_under_new_top(m, degree, s, room, top, route(n.keys, k));
        }
        assert(m2[s.offset].children == n.children);
        assert(m2[s.offset].keys == n.keys);
        assert(contents(m2, s.offset, s.height) =~= contents(m, s.offset, s.height));
    }
}

/// Recording another parent in the top node of a well-formed subtree leaves
/// it well-formed under that parent.
pub proof fn lemma_reparent_shape<K: Index, V: Value>(
    m: Heap<K, V>,
    degree: nat,
    s: Slot<K>,
    room: nat,
    parent: u64,
)
    requires
        shape_with(m, degree, s, room),
    ensures
        shape_with(
            m.insert(s.offset, with_parent(m[s.offset], parent)),
            degree,
            Slot { parent, ..s },
            room,
        ),
{
    let n = m[s.offset];
    let top = with_parent(n, parent);
    let m2 = m.insert(s.offset, top);
    let s2 = Slot { parent, ..s };
    if s.height > 0 {
        let h = (s.height - 1) as nat;
        assert forall|i: int| 0 <= i < top.children.len() implies top.children[i] != 0
            && shape_with(m2, degree, #[trigger] child_slot(m2, top, s2, i), (degree - 1) as nat)
            && !reach(m2, top.children[i], h).contains(s.offset) && reach(m2, top.children[i], h)
            == reach(m, n.children[i], h) by {
            lemma_child(m, degree, s, room, i);
            lemma_child_under_new_top(m, degree, s, room, top, i);
            if i < n.keys.len() {
                lemma_child_under_new_top(m, degree, s, room, top, i + 1);
            }
            assert(child_slot(m2, top, s2, i) == child_slot(m, n, s, i));
        }
        assert forall|i: int, j: int| 0 <= i < j < top.children.len() implies (#[trigger] reach(
            m2,
            top.children[i],
            h,
        )).disjoint(#[trigger] reach(m2, top.children[j], h)) by {
            assert(child_slot(m2, top, s2, i).offset == top.children[i]);
            assert(child_slot(m2, top, s2, j).offset == top.children[j]);
            assert(reach(m, n.children[i], h).disjoint(reach(m, n.children[j], h)));
        }
        assert forall|i: int| 0 <= i < top.children.len() implies !(#[trigger] reach(
            m2,
            top.children[i],
            h,
        )).contains(s.offset) by {
            assert(child_slot(m2, top, s2, i).offset == top.children[i]);
        }
    }
}

/// Recording another parent in the top node of a well-formed subtree leaves
/// it well-formed under that parent, with the same nodes, first leaf and
/// contents.
pub proof fn lemma_reparent_one<K: Index, V: Value>(
    m: Heap<K, V>,
    degree: nat,
    s: Slot<K>,
    room: nat,
    parent: u64,
)
    requires
        shape_with(m, degree, s, room),
    ensures
        ({
            let m2 = m.insert(s.offset, with_parent(m[s.offset], parent));
            &&& shape_with(m2, degree, Slot { parent, ..s }, room)
            &&& reach(m2, s.offset, s.height) == reach(m, s.offset, s.height)
            &&& leftmost(m2, s.offset, s.height) == leftmost(m, s.offset, s.height)
            &&& contents(m2, s.offset, s.height) == contents(m, s.offset, s.height)
        }),
{
    lemma_reparent_shape(m, degree, s, room, parent);
    lemma_reparent_reach(m, degree, s, room, parent);
    lemma_reparent_contents(m, degree, s, room, parent);
}

/// The offsets of the top nodes of the slots.
pub open spec fn tops<K>(slots: Seq<Slot<K>>) -> Seq<u64> {
    Seq::new(slots.len(), |j: int| slots[j].offset)
}

/// Whether the subtrees of the slots share no node.
pub open spec fn apart<K, V>(m: Heap<K, V>, slots: Seq<Slot<K>>) -> bool {
    forall|i: int, j: int|
        0 <= i < j < slots.len() ==> (#[trigger] reach(m, slots[i].offset, slots[i].height)).disjoint(
            #[trigger] reach(m, slots[j].offset, slots[j].height),
        )
}

/// Whether each of the slots holds a well-formed subtree.
pub open spec fn all_shaped<K: Index, V: Value>(
    m: Heap<K, V>,
    degree: nat,
    slots: Seq<Slot<K>>,
) -> bool {
    forall|j: int| 0 <= j < slots.len() ==> shape_with(m, degree, #[trigger] slots[j], (degree - 1) as nat)
}

/// Whether `m2` holds under the slots, with `parent` above them, what `m`
/// holds under them: the same nodes, first leaves and contents.
pub open spec fn moved_under<K: Index, V: Value>(
    m: Heap<K, V>,
    m2: Heap<K, V>,
    degree: nat,
    slots: Seq<Slot<K>>,
    parent: u64,
) -> bool {
    forall|j: int|
        #![trigger slots[j]]
        0 <= j < slots.len() ==> {
            &&& shape_with(m2, degree, Slot { parent, ..slots[j] }, (degree - 1) as nat)
            &&& reach(m2, slots[j].offset, slots[j].height) == reach(
                m,
                slots[j].offset,
                slots[j].height,
            )
            &&& leftmost(m2, slots[j].offset, slots[j].height) == leftmost(
                m,
                slots[j].offset,
                slots[j].height,
            )
            &&& contents(m2, slots[j].offset, slots[j].height) == contents(
                m,
                slots[j].offset,
                slots[j].height,
            )
        }
}

/// Whether `m2` is `m` but for the nodes at `offsets`.
pub open spec fn same_but_at<K, V>(m: Heap<K, V>, m2: Heap<K, V>, offsets: Seq<u64>) -> bool {
    &&& m2.dom() == m.dom()
    &&& forall|o: u64| #[trigger] m.dom().contains(o) && !offsets.contains(o) ==> m2[o] == m[o]
}

/// Recording a new parent in the top nodes of well-formed subtrees that
/// share no node leaves each of them well-formed under that parent, with the
/// same nodes, first leaf and contents, and changes no other node.
pub proof fn lemma_reparented<K: Index, V: Value>(
    m: Heap<K, V>,
    degree: nat,
    slots: Seq<Slot<K>>,
    parent: u64,
)
    requires
        all_shaped(m, degree, slots),
        apart(m, slots),
    ensures
        moved_under(m, reparented(m, tops(slots), parent), degree, slots, parent),
        same_but_at(m, reparented(m, tops(slots), parent), tops(slots)),
    decreases slots.len(),
{
    let m2 = reparented(m, tops(slots), parent);
    if slots.len() == 0 {
    } else {
        let front = slots.drop_last();
        let last = slots.last();
        let n = slots.len() - 1;
        assert(tops(slots).drop_last() =~= tops(front));
        assert(tops(slots).last() == last.offset);
        assert forall|j: int| 0 <= j < front.len() implies shape_with(
            m,
            degree,
            #[trigger] front[j],
            (degree - 1) as nat,
        ) by {
            assert(front[j] == slots[j]);
        }
        assert forall|i: int, j: int| 0 <= i < j < front.len() implies (#[trigger] reach(
            m,
            front[i].offset,
            front[i].height,
        )).disjoint(#[trigger] reach(m, front[j].offset, front[j].height)) by {
            assert(front[i] == slots[i] && front[j] == slots[j]);
        }
        lemma_reparented(m, degree, front, parent);
        let m1 = reparented(m, tops(front), parent);
        assert(m2 == m1.insert(last.offset, with_parent(m1[last.offset], parent)));
        // the last subtree is untouched in m1
        assert(shape_with(m, degree, slots[n], (degree - 1) as nat));
        lemma_reach_dom(m, degree, last, (degree - 1) as nat);
        assert forall|o: u64| reach(m, last.offset, last.height).contains(o) implies !tops(
            front,
        ).contains(o) by {
            if tops(front).contains(o) {
                let j = choose|j: int| 0 <= j < tops(front).len() && tops(front)[j] == o;
                assert(front[j] == slots[j]);
                lemma_reach_top(m, slots[j].offset, slots[j].height);
                assert(reach(m, slots[j].offset, slots[j].height).disjoint(
                    reach(m, slots[n].offset, slots[n].height),
                ));
            }
        }
        assert(same_inside(m, m1, reach(m, last.offset, last.height)));
        lemma_frame(m, m1, degree, last, (degree - 1) as nat);
        lemma_reparent_one(m1, degree, last, (degree - 1) as nat, parent);
        // the others are untouched by the last step
        assert forall|j: int|
            #![trigger slots[j]]
            0 <= j < slots.len() implies {
            &&& shape_with(m2, degree, Slot { parent, ..slots[j] }, (degree - 1) as nat)
            &&& reach(m2, slots[j].offset, slots[j].height) == reach(
                m,
                slots[j].offset,
                slots[j].height,
            )
            &&& leftmost(m2, slots[j].offset, slots[j].height) == leftmost(
                m,
                slots[j].offset,
                slots[j].height,
            )
            &&& contents(m2, slots[j].offset, slots[j].height) == contents(
                m,
                slots[j].offset,
                slots[j].height,
            )
        } by {
            if j < n {
                assert(front[j] == slots[j]);
                let sj = Slot { parent, ..slots[j] };
                lemma_reach_top(m, last.offset, last.height);
                assert(reach(m, slots[j].offset, slots[j].height).disjoint(
                    reach(m, slots[n].offset, slots[n].height),
                ));
                lemma_reach_dom(m1, degree, sj, (degree - 1) as nat);
                assert(same_inside(m1, m2, reach(m1, sj.offset, sj.height)));
                lemma_frame(m1, m2, degree, sj, (degree - 1) as nat);
            }
        }
        assert forall|o: u64| #[trigger] m.dom().contains(o) && !tops(slots).contains(o) implies m2[o]
            == m[o] by {
            assert(tops(slots)[n] == last.offset);
            if tops(front).contains(o) {
                let j = choose|j: int| 0 <= j < tops(front).len() && tops(front)[j] == o;
                assert(tops(slots)[j] == o);
            }
        }
        assert(m2.dom() =~= m.dom());
    }
}

/// Recording a new parent in nodes that are in the file leaves the same
/// offsets in use.
pub proof fn lemma_reparented_dom<K, V>(m: Heap<K, V>, children: Seq<u64>, parent: u64)
    requires
        forall|j: int| 0 <= j < children.len() ==> m.dom().contains(#[trigger] children[j]),
    ensures
        reparented(m, children, parent).dom() == m.dom(),
    decreases children.len(),
{
    if children.len() > 0 {
        let front = children.drop_last();
        assert forall|j: int| 0 <= j < front.len() implies m.dom().contains(#[trigger] front[j]) by {
            assert(front[j] == children[j]);
        }
        lemma_reparented_dom(m, front, parent);
        assert(m.dom().contains(children[children.len() - 1]));
        assert(reparented(m, children, parent).dom() =~= m.dom());
    }
}

/// A node written at an offset that is none of `children` can as well be
/// written after the children were told of their parent.
pub proof fn lemma_reparented_skip<K, V>(
    m: Heap<K, V>,
    offset: u64,
    node: NodeView<K, V>,
    children: Seq<u64>,
    parent: u64,
)
    requires
        !children.contains(offset),
    ensures
        reparented(m.insert(offset, node), children, parent) == reparented(
            m,
            children,
            parent,
        ).insert(offset, node),
    decreases children.len(),
{
    if children.len() > 0 {
        let front = children.drop_last();
        let last = children.last();
        assert(children[children.len() - 1] == last);
        assert forall|j: int| 0 <= j < front.len() implies front[j] != offset by {
            assert(front[j] == children[j]);
        }
        assert(!front.contains(offset));
        lemma_reparented_skip(m, offset, node, front, parent);
        let r = reparented(m, front, parent);
        assert(r.insert(offset, node).insert(last, with_parent(r[last], parent)) =~= r.insert(
            last,
            with_parent(r[last], parent),
        ).insert(offset, node));
    }
}

/// Recording a new parent in some nodes takes no node out of the file.
pub proof fn lemma_reparented_keeps<K, V>(
    m: Heap<K, V>,
    children: Seq<u64>,
    parent: u64,
    offset: u64,
)
    requires
        m.dom().contains(offset),
    ensures
        reparented(m, children, parent).dom().contains(offset),
    decreases children.len(),
{
    if children.len() > 0 {
        lemma_reparented_keeps(m, children.drop_last(), parent, offset);
    }
}

/// Records `parent` as the parent in each of the nodes at `children` and
/// brings their pages up to date, one after another.
pub fn reparent_children<K: Index, V: Value>(
    file: &mut NodeFile,
    degree: usize,
    children: &Vec<u64>,
    parent: u64,
) -> (r: Result<(), Error>)
    requires
        old(file).wf(),
    ensures
        final(file).wf(),
        final(file).page_size == old(file).page_size,
        final(file).pages@.len() >= old(file).pages@.len(),
        layout_fits::<K, V>(degree as nat) && old(file).page_size == node_size::<K, V>(
            degree as nat,
        ) && (forall|j: int|
            0 <= j < children@.len() ==> heap::<K, V>(*old(file), degree as nat).dom().contains(
                #[trigger] children@[j],
            )) ==> {
            &&& r is Ok
            &&& final(file).pages@.len() == old(file).pages@.len()
            &&& final(file).journal@ == old(file).journal@ + children@
            &&& exact_kept::<K, V>(*old(file), *final(file), degree as nat)
            &&& heap::<K, V>(*final(file), degree as nat) == reparented(
                heap::<K, V>(*old(file), degree as nat),
                children@,
                parent,
            )
        },
{
    let ghost m0 = heap::<K, V>(*file, degree as nat);
    let ghost good = layout_fits::<K, V>(degree as nat) && file.page_size == node_size::<K, V>(
        degree as nat,
    ) && (forall|j: int| 0 <= j < children@.len() ==> m0.dom().contains(#[trigger] children@[j]));
    let mut j: usize = 0;
    while j < children.len()
        invariant
            j <= children@.len(),
            file.wf(),
            file.page_size == old(file).page_size,
            file.pages@.len() >= old(file).pages@.len(),
            m0 == heap::<K, V>(*old(file), degree as nat),
            good == (layout_fits::<K, V>(degree as nat) && file.page_size == node_size::<K, V>(
                degree as nat,
            ) && (forall|j: int|
                0 <= j < children@.len() ==> m0.dom().contains(#[trigger] children@[j]))),
            good ==> {
                &&& file.pages@.len() == old(file).pages@.len()
                &&& file.journal@ == old(file).journal@ + children@.subrange(0, j as int)
                &&& exact_kept::<K, V>(*old(file), *file, degree as nat)
                &&& heap::<K, V>(*file, degree as nat) == reparented(
                    m0,
                    children@.subrange(0, j as int),
                    parent,
                )
                &&& heap::<K, V>(*file, degree as nat).dom() == m0.dom()
            },
        decreases children@.len() - j,
    {
        let child = children[j];
        let ghost before = *file;
        let ghost m1 = heap::<K, V>(*file, degree as nat);
        proof {
            if good {
                assert(m0.dom().contains(children@[j as int]));
                assert(m1.dom().contains(child));
                assert(node_at::<K, V>(*file, degree as nat, child) is Some);
            }
        }
        let mut node = match Node::<K, V>::read(file, child, degree) {
            Ok(node) => node,
            Err(e) => {
                return Err(e);
            },
        };
        node.set_parent_offset(parent);
        node.set_dirty();
        proof {
            if good {
                lemma_node_encoding_parts::<K, V>(node@, degree as nat);
                assert(node.writable(*file));
            }
        }
        match node.write(file) {
            Ok(_) => {},
            Err(e) => {
                return Err(e);
            },
        }
        proof {
            if good {
                assert(m0.dom().contains(children@[j as int]));
                assert(node@ == with_parent(m1[child], parent));
                lemma_heap_after_write::<K, V>(before, *file, node@, degree as nat);
                let prefix = children@.subrange(0, j + 1);
                assert(file.journal@ =~= old(file).journal@ + prefix);
                assert(prefix.drop_last() =~= children@.subrange(0, j as int));
                assert(prefix.last() == child);
                assert(heap::<K, V>(*file, degree as nat).dom() =~= m0.dom());
            }
        }
        j += 1;
    }
    proof {
        assert(children@.subrange(0, children@.len() as int) =~= children@);
    }
    Ok(())
}

} // verus!
