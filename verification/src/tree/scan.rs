//! Following the chain of leaves.

use vstd::prelude::*;
use crate::index::Index;
use crate::error::Error;
use crate::fm::nodes::{lemma_aligned_offset, NodeFile};
use crate::nodes::crud::{lemma_leaf_map_at, lemma_route, lemma_route_between, position, route};
use crate::nodes::io::{heap, node_at, Heap};
use crate::nodes::Node;
use crate::tree::frame::lemma_contents_in_range;
use crate::tree::shape::{contents, shape};
use crate::nodes::NodeView;
use crate::tree::frame::{lemma_reach_child, lemma_reach_dom, lemma_reach_top};
use crate::tree::reparent::lemma_child;
use crate::tree::shape::{child_slot, leftmost, reach, shape_with, Slot};
use crate::value::Value;

verus! {

/// The pairs of a leaf, in the order of its keys.
pub open spec fn leaf_pairs<K, V>(n: NodeView<K, V>) -> Seq<(K, V)> {
    Seq::new(n.keys.len(), |i: int| (n.keys[i], n.values[i]))
}

/// The pairs of the subtree of the given height at `offset`, leaf by leaf
/// from left to right.
pub open spec fn pairs_of<K, V>(m: Heap<K, V>, offset: u64, height: nat) -> Seq<(K, V)>
    decreases height, 0nat,
{
    if !m.dom().contains(offset) {
        Seq::empty()
    } else if height == 0 {
        leaf_pairs(m[offset])
    } else {
        pairs_upto(m, m[offset].children, (height - 1) as nat, m[offset].children.len())
    }
}

/// The pairs of the subtrees at the first `count` of `children`.
pub open spec fn pairs_upto<K, V>(
    m: Heap<K, V>,
    children: Seq<u64>,
    height: nat,
    count: nat,
) -> Seq<(K, V)>
    decreases height, count + 1,
{
    if count == 0 || count > children.len() {
        Seq::empty()
    } else {
        pairs_upto(m, children, height, (count - 1) as nat) + pairs_of(
            m,
            children[count - 1],
            height,
        )
    }
}

/// The offsets of the leaves of the subtree of the given height at `offset`,
/// from left to right.
pub open spec fn leaves_of<K, V>(m: Heap<K, V>, offset: u64, height: nat) -> Seq<u64>
    decreases height, 0nat,
{
    if height == 0 || !m.dom().contains(offset) {
        seq![offset]
    } else {
        leaves_upto(m, m[offset].children, (height - 1) as nat, m[offset].children.len())
    }
}

/// The offsets of the leaves of the subtrees at the first `count` of
/// `children`.
pub open spec fn leaves_upto<K, V>(
    m: Heap<K, V>,
    children: Seq<u64>,
    height: nat,
    count: nat,
) -> Seq<u64>
    decreases height, count + 1,
{
    if count == 0 || count > children.len() {
        Seq::empty()
    } else {
        leaves_upto(m, children, height, (count - 1) as nat) + leaves_of(
            m,
            children[count - 1],
            height,
        )
    }
}

/// The pairs `front`, followed by `rest` where there is one.
pub open spec fn followed<A>(front: Seq<A>, rest: Option<Seq<A>>) -> Option<Seq<A>> {
    match rest {
        Some(tail) => Some(front + tail),
        None => None,
    }
}

/// What following the chain of leaves from `current` on gives: the pairs of
/// each leaf in turn, up to the leaf that is linked to no other. There is no
/// result where the chain leads to a node that is not in the file or is no
/// leaf, or does not end within `fuel` leaves.
pub open spec fn walk<K, V>(m: Heap<K, V>, current: Option<u64>, fuel: nat) -> Option<Seq<(K, V)>>
    decreases fuel,
{
    match current {
        None => Some(Seq::empty()),
        Some(offset) => if fuel == 0 || !m.dom().contains(offset) || !m[offset].is_leaf() {
            None
        } else {
            followed(
                leaf_pairs(m[offset]),
                walk(m, m[offset].node_type->Leaf_0, (fuel - 1) as nat),
            )
        },
    }
}

/// What follows the first `count` children of the top node of slot `s`: the
/// first leaf of the next child, or what follows the slot.
pub open spec fn next_after<K, V>(m: Heap<K, V>, s: Slot<K>, count: int) -> Option<u64> {
    let n = m[s.offset];
    if count >= n.children.len() {
        s.next
    } else {
        Some(leftmost(m, n.children[count], (s.height - 1) as nat))
    }
}

/// Following the chain of leaves from the first leaf of a well-formed
/// subtree gives the pairs of the subtree and then what following the chain
/// from behind the subtree gives.
pub proof fn lemma_walk<K: Index, V: Value>(
    m: Heap<K, V>,
    degree: nat,
    s: Slot<K>,
    room: nat,
    fuel: nat,
)
    requires
        shape_with(m, degree, s, room),
        fuel >= leaves_of(m, s.offset, s.height).len(),
    ensures
        walk(m, Some(leftmost(m, s.offset, s.height)), fuel) == followed(
            pairs_of(m, s.offset, s.height),
            walk(m, s.next, (fuel - leaves_of(m, s.offset, s.height).len()) as nat),
        ),
        leaves_of(m, s.offset, s.height).len() >= 1,
    decreases s.height, m[s.offset].children.len() + 1,
{
    let n = m[s.offset];
    if s.height == 0 {
        assert(leaf_pairs(n) + Seq::<(K, V)>::empty() =~= leaf_pairs(n));
    } else {
        lemma_walk_upto(m, degree, s, room, fuel, n.children.len());
    }
}

/// Following the chain of leaves from the first leaf of a well-formed
/// subtree gives the pairs of its first `count` children and then what
/// following the chain from behind them gives.
pub proof fn lemma_walk_upto<K: Index, V: Value>(
    m: Heap<K, V>,
    degree: nat,
    s: Slot<K>,
    room: nat,
    fuel: nat,
    count: nat,
)
    requires
        shape_with(m, degree, s, room),
        s.height > 0,
        1 <= count <= m[s.offset].children.len(),
        fuel >= leaves_upto(m, m[s.offset].children, (s.height - 1) as nat, count).len(),
    ensures
        walk(m, Some(leftmost(m, s.offset, s.height)), fuel) == followed(
            pairs_upto(m, m[s.offset].children, (s.height - 1) as nat, count),
            walk(
                m,
                next_after(m, s, count as int),
                (fuel - leaves_upto(m, m[s.offset].children, (s.height - 1) as nat, count).len()) as nat,
            ),
        ),
        leaves_upto(m, m[s.offset].children, (s.height - 1) as nat, count).len() >= 1,
    decreases s.height, count,
{
    let n = m[s.offset];
    let h = (s.height - 1) as nat;
    let c = child_slot(m, n, s, count - 1);
    lemma_child(m, degree, s, room, count - 1);
    let before = leaves_upto(m, n.children, h, (count - 1) as nat);
    let here = leaves_of(m, c.offset, h);
    let front = pairs_upto(m, n.children, h, (count - 1) as nat);
    assert(c.next == next_after(m, s, count as int));
    if count == 1 {
        lemma_walk(m, degree, c, (degree - 1) as nat, fuel);
        assert(before =~= Seq::<u64>::empty());
        assert(front + pairs_of(m, c.offset, h) =~= pairs_of(m, c.offset, h));
        assert(before + here =~= here);
    } else {
        lemma_walk_upto(m, degree, s, room, fuel, (count - 1) as nat);
        lemma_walk(m, degree, c, (degree - 1) as nat, (fuel - before.len()) as nat);
        let rest = walk(m, c.next, (fuel - before.len() - here.len()) as nat);
        if rest is Some {
            assert(front + (pairs_of(m, c.offset, h) + rest->Some_0) =~= (front + pairs_of(
                m,
                c.offset,
                h,
            )) + rest->Some_0);
        }
    }
}

/// The leaves of a well-formed subtree are nodes that the subtree reaches,
/// each once.
pub proof fn lemma_leaves<K: Index, V: Value>(m: Heap<K, V>, degree: nat, s: Slot<K>, room: nat)
    requires
        shape_with(m, degree, s, room),
    ensures
        leaves_of(m, s.offset, s.height).no_duplicates(),
        forall|i: int|
            0 <= i < leaves_of(m, s.offset, s.height).len() ==> reach(
                m,
                s.offset,
                s.height,
            ).contains(#[trigger] leaves_of(m, s.offset, s.height)[i]),
    decreases s.height, m[s.offset].children.len() + 1,
{
    if s.height > 0 {
        lemma_leaves_upto(m, degree, s, room, m[s.offset].children.len());
        assert forall|i: int| 0 <= i < leaves_of(m, s.offset, s.height).len() implies reach(
            m,
            s.offset,
            s.height,
        ).contains(#[trigger] leaves_of(m, s.offset, s.height)[i]) by {
            let o = leaves_of(m, s.offset, s.height)[i];
            let j = choose|j: int|
                0 <= j < m[s.offset].children.len() && reach(
                    m,
                    m[s.offset].children[j],
                    (s.height - 1) as nat,
                ).contains(o);
            lemma_reach_child(m, s.offset, s.height, j);
        }
    }
}

/// The leaves of the first `count` children of a well-formed node are nodes
/// that those children reach, each once.
pub proof fn lemma_leaves_upto<K: Index, V: Value>(
    m: Heap<K, V>,
    degree: nat,
    s: Slot<K>,
    room: nat,
    count: nat,
)
    requires
        shape_with(m, degree, s, room),
        s.height > 0,
        count <= m[s.offset].children.len(),
    ensures
        leaves_upto(m, m[s.offset].children, (s.height - 1) as nat, count).no_duplicates(),
        forall|i: int|
            0 <= i < leaves_upto(m, m[s.offset].children, (s.height - 1) as nat, count).len()
                ==> exists|j: int|
                0 <= j < count && reach(m, m[s.offset].children[j], (s.height - 1) as nat).contains(
                    #[trigger] leaves_upto(m, m[s.offset].children, (s.height - 1) as nat, count)[i],
                ),
    decreases s.height, count,
{
    let n = m[s.offset];
    let h = (s.height - 1) as nat;
    if count > 0 {
        let c = child_slot(m, n, s, count - 1);
        lemma_child(m, degree, s, room, count - 1);
        lemma_leaves_upto(m, degree, s, room, (count - 1) as nat);
        lemma_leaves(m, degree, c, (degree - 1) as nat);
        let before = leaves_upto(m, n.children, h, (count - 1) as nat);
        let here = leaves_of(m, c.offset, h);
        let all = leaves_upto(m, n.children, h, count);
        assert(all == before + here);
        assert forall|i: int| 0 <= i < all.len() implies exists|j: int|
            0 <= j < count && reach(m, n.children[j], h).contains(#[trigger] all[i]) by {
            if i < before.len() {
                assert(all[i] == before[i]);
                let j = choose|j: int|
                    0 <= j < count - 1 && reach(m, n.children[j], h).contains(before[i]);
                assert(0 <= j < count && reach(m, n.children[j], h).contains(all[i]));
            } else {
                assert(all[i] == here[i - before.len()]);
                assert(reach(m, n.children[count - 1], h).contains(all[i]));
            }
        }
        assert forall|i: int, k: int| 0 <= i < all.len() && 0 <= k < all.len() && i != k implies all[i]
            != all[k] by {
            if i < before.len() && k < before.len() {
                assert(before[i] != before[k]);
            } else if i >= before.len() && k >= before.len() {
                assert(here[i - before.len()] != here[k - before.len()]);
            } else {
                let (lo, hi) = if i < k { (i, k) } else { (k, i) };
                assert(all[lo] == before[lo]);
                assert(all[hi] == here[hi - before.len()]);
                let j = choose|j: int|
                    0 <= j < count - 1 && reach(m, n.children[j], h).contains(before[lo]);
                crate::tree::divide::lemma_children_apart(m, degree, s, room, j, count - 1);
            }
        }
    }
}

/// Whether the keys of the pairs stand in strictly ascending order.
pub open spec fn ascending<K: Index, V>(pairs: Seq<(K, V)>) -> bool {
    forall|i: int, j: int| 0 <= i < j < pairs.len() ==> pairs[i].0.rank() < pairs[j].0.rank()
}

/// Whether the pairs are what `map` holds: each pair is in the map and each
/// key of the map is the key of a pair.
pub open spec fn lists<K, V>(pairs: Seq<(K, V)>, map: Map<K, V>) -> bool {
    &&& forall|i: int| 0 <= i < pairs.len() ==> map.get((#[trigger] pairs[i]).0) == Some(pairs[i].1)
    &&& forall|k: K|
        #[trigger] map.contains_key(k) ==> exists|i: int| 0 <= i < pairs.len() && pairs[i].0 == k
}

/// Whether the pairs of the first `count` children of the top node of slot
/// `s` are in order and are what the subtree holds for the keys that are
/// routed to those children.
pub open spec fn lists_upto<K: Index, V: Value>(
    m: Heap<K, V>,
    s: Slot<K>,
    count: nat,
    pairs: Seq<(K, V)>,
) -> bool {
    let n = m[s.offset];
    let map = contents(m, s.offset, s.height);
    &&& ascending(pairs)
    &&& forall|i: int|
        0 <= i < pairs.len() ==> route(n.keys, (#[trigger] pairs[i]).0) < count && map.get(
            pairs[i].0,
        ) == Some(pairs[i].1)
    &&& forall|k: K|
        #[trigger] map.contains_key(k) && route(n.keys, k) < count ==> exists|i: int|
            0 <= i < pairs.len() && pairs[i].0 == k
}

/// The pairs of a well-formed subtree stand in strictly ascending order of
/// their keys and are what the subtree holds.
pub proof fn lemma_pairs<K: Index, V: Value>(m: Heap<K, V>, degree: nat, s: Slot<K>, room: nat)
    requires
        shape_with(m, degree, s, room),
    ensures
        ascending(pairs_of(m, s.offset, s.height)),
        lists(pairs_of(m, s.offset, s.height), contents(m, s.offset, s.height)),
    decreases s.height, m[s.offset].children.len() + 1,
{
    let n = m[s.offset];
    let p = pairs_of(m, s.offset, s.height);
    let map = contents(m, s.offset, s.height);
    if s.height == 0 {
        assert forall|i: int| 0 <= i < p.len() implies map.get((#[trigger] p[i]).0) == Some(
            p[i].1,
        ) by {
            lemma_leaf_map_at(n.keys, n.values, i);
        }
        assert forall|k: K| #[trigger] map.contains_key(k) implies exists|i: int|
            0 <= i < p.len() && p[i].0 == k by {
            let i = position(n.keys, k);
            assert(p[i].0 == k);
        }
    } else {
        lemma_pairs_upto(m, degree, s, room, n.children.len());
        assert forall|k: K| #[trigger] map.contains_key(k) implies exists|i: int|
            0 <= i < p.len() && p[i].0 == k by {
            lemma_route(n.keys, k);
        }
    }
}

/// The pairs of the first `count` children of a well-formed node stand in
/// order and are what the subtree holds for the keys that are routed to
/// those children.
pub proof fn lemma_pairs_upto<K: Index, V: Value>(
    m: Heap<K, V>,
    degree: nat,
    s: Slot<K>,
    room: nat,
    count: nat,
)
    requires
        shape_with(m, degree, s, room),
        s.height > 0,
        count <= m[s.offset].children.len(),
    ensures
        lists_upto(m, s, count, pairs_upto(m, m[s.offset].children, (s.height - 1) as nat, count)),
    decreases s.height, count,
{
    let n = m[s.offset];
    let h = (s.height - 1) as nat;
    let map = contents(m, s.offset, s.height);
    let all = pairs_upto(m, n.children, h, count);
    if count == 0 {
        assert forall|k: K| #[trigger] map.contains_key(k) && route(n.keys, k) < count implies exists|
            i: int,
        | 0 <= i < all.len() && all[i].0 == k by {
            lemma_route(n.keys, k);
        }
    } else {
        let c = child_slot(m, n, s, count - 1);
        lemma_child(m, degree, s, room, count - 1);
        lemma_pairs_upto(m, degree, s, room, (count - 1) as nat);
        lemma_pairs(m, degree, c, (degree - 1) as nat);
        let before = pairs_upto(m, n.children, h, (count - 1) as nat);
        let here = pairs_of(m, c.offset, h);
        let part = contents(m, c.offset, h);
        assert(all == before + here);
        assert forall|i: int| 0 <= i < here.len() implies route(n.keys, (#[trigger] here[i]).0)
            == count - 1 && map.get(here[i].0) == Some(here[i].1) by {
            assert(part.get(here[i].0) == Some(here[i].1));
            lemma_contents_in_range(m, degree, c, (degree - 1) as nat, here[i].0);
            lemma_route_between(n.keys, here[i].0, count - 1);
        }
        assert forall|i: int| 0 <= i < all.len() implies route(n.keys, (#[trigger] all[i]).0)
            < count && map.get(all[i].0) == Some(all[i].1) by {
            if i < before.len() {
                assert(all[i] == before[i]);
            } else {
                assert(all[i] == here[i - before.len()]);
            }
        }
        assert forall|i: int, j: int| 0 <= i < j < all.len() implies all[i].0.rank()
            < all[j].0.rank() by {
            if j < before.len() {
                assert(all[i] == before[i] && all[j] == before[j]);
            } else if i >= before.len() {
                assert(all[i] == here[i - before.len()] && all[j] == here[j - before.len()]);
            } else {
                assert(all[i] == before[i] && all[j] == here[j - before.len()]);
                let r = route(n.keys, before[i].0);
                lemma_route(n.keys, before[i].0);
                lemma_route(n.keys, here[j - before.len()].0);
                assert(r < count - 1);
                assert(before[i].0.rank() < n.keys[r].rank());
                if r < count - 2 {
                    assert(n.keys[r].rank() < n.keys[count - 2].rank());
                }
                assert(n.keys[count - 2].rank() <= here[j - before.len()].0.rank());
            }
        }
        assert forall|k: K| #[trigger] map.contains_key(k) && route(n.keys, k) < count implies exists|
            i: int,
        | 0 <= i < all.len() && all[i].0 == k by {
            lemma_route(n.keys, k);
            if route(n.keys, k) < count - 1 {
                let i = choose|i: int| 0 <= i < before.len() && before[i].0 == k;
                assert(all[i].0 == k);
            } else {
                assert(part.contains_key(k));
                let i = choose|i: int| 0 <= i < here.len() && here[i].0 == k;
                assert(all[i + before.len()].0 == k);
            }
        }
    }
}

/// Every leaf of a well-formed subtree other than the root holds at least
/// the least number of keys, half the degree rounded down, and no more than
/// a page has room for.
pub proof fn lemma_leaves_hold_enough<K: Index, V: Value>(
    m: Heap<K, V>,
    degree: nat,
    s: Slot<K>,
    room: nat,
    i: int,
)
    requires
        shape_with(m, degree, s, room),
        0 <= i < leaves_of(m, s.offset, s.height).len(),
        room + 1 <= degree,
        degree >= 1,
    ensures
        ({
            let leaf = leaves_of(m, s.offset, s.height)[i];
            &&& m.dom().contains(leaf)
            &&& m[leaf].is_leaf()
            &&& m[leaf].keys.len() + 1 <= degree
            &&& leaf != 0 ==> m[leaf].keys.len() >= crate::tree::shape::min_keys(degree)
        }),
    decreases s.height, m[s.offset].children.len() + 1,
{
    if s.height > 0 {
        lemma_leaves_hold_enough_upto(m, degree, s, room, m[s.offset].children.len(), i);
    }
}

/// Every leaf of the first `count` children of a well-formed node holds at
/// least the least number of keys and no more than a page has room for.
pub proof fn lemma_leaves_hold_enough_upto<K: Index, V: Value>(
    m: Heap<K, V>,
    degree: nat,
    s: Slot<K>,
    room: nat,
    count: nat,
    i: int,
)
    requires
        shape_with(m, degree, s, room),
        s.height > 0,
        count <= m[s.offset].children.len(),
        0 <= i < leaves_upto(m, m[s.offset].children, (s.height - 1) as nat, count).len(),
        degree >= 1,
    ensures
        ({
            let leaf = leaves_upto(m, m[s.offset].children, (s.height - 1) as nat, count)[i];
            &&& m.dom().contains(leaf)
            &&& m[leaf].is_leaf()
            &&& m[leaf].keys.len() + 1 <= degree
            &&& m[leaf].keys.len() >= crate::tree::shape::min_keys(degree)
        }),
    decreases s.height, count,
{
    let n = m[s.offset];
    let h = (s.height - 1) as nat;
    let c = child_slot(m, n, s, count - 1);
    lemma_child(m, degree, s, room, count - 1);
    let before = leaves_upto(m, n.children, h, (count - 1) as nat);
    if i < before.len() {
        lemma_leaves_hold_enough_upto(m, degree, s, room, (count - 1) as nat, i);
    } else {
        lemma_leaves_hold_enough(m, degree, c, (degree - 1) as nat, i - before.len());
        lemma_leaves(m, degree, c, (degree - 1) as nat);
        lemma_reach_dom(m, degree, c, (degree - 1) as nat);
        let leaf = leaves_of(m, c.offset, h)[i - before.len()];
        assert(reach(m, c.offset, h).contains(leaf));
        if leaf == 0 {
            lemma_reach_top(m, s.offset, s.height);
            if s.offset == 0 {
                assert(!reach(m, n.children[count - 1], h).contains(s.offset));
            } else {
                lemma_no_root_below(m, degree, c, (degree - 1) as nat);
            }
        }
    }
}

/// A well-formed subtree that hangs below a node does not reach offset
/// zero, where the root is.
pub proof fn lemma_no_root_below<K: Index, V: Value>(
    m: Heap<K, V>,
    degree: nat,
    s: Slot<K>,
    room: nat,
)
    requires
        shape_with(m, degree, s, room),
        s.offset != 0,
    ensures
        !reach(m, s.offset, s.height).contains(0),
    decreases s.height,
{
    if s.height > 0 {
        let n = m[s.offset];
        if reach(m, s.offset, s.height).contains(0) {
            let j = choose|j: int|
                0 <= j < n.children.len() && reach(
                    m,
                    #[trigger] n.children[j],
                    (s.height - 1) as nat,
                ).contains(0);
            lemma_child(m, degree, s, room, j);
            lemma_no_root_below(m, degree, child_slot(m, n, s, j), (degree - 1) as nat);
        }
    }
}

/// The offsets at which the records of a file start.
pub open spec fn starts(file: NodeFile) -> Set<u64> {
    vstd::set_lib::set_int_range(0, file.pages@.len() as int).map(
        |i: int| (i * file.page_size) as u64,
    )
}

/// A well-formed subtree has no more leaves than the file has records.
pub proof fn lemma_leaves_fit<K: Index, V: Value>(
    file: NodeFile,
    degree: nat,
    s: Slot<K>,
    room: nat,
)
    requires
        file.wf(),
        shape_with(heap::<K, V>(file, degree), degree, s, room),
    ensures
        leaves_of(heap::<K, V>(file, degree), s.offset, s.height).len() <= file.pages@.len(),
{
    let m = heap::<K, V>(file, degree);
    let leaves = leaves_of(m, s.offset, s.height);
    let count = file.pages@.len() as int;
    let size = file.page_size as int;
    let x = vstd::set_lib::set_int_range(0, count);
    let f = |i: int| (i * file.page_size) as u64;
    let y = starts(file);
    lemma_leaves(m, degree, s, room);
    lemma_reach_dom(m, degree, s, room);
    vstd::set_lib::lemma_int_range(0, count);
    vstd::set_lib::lemma_map_size_bound(x, y, f);
    leaves.unique_seq_to_set();
    assert forall|o: u64| leaves.to_set().contains(o) implies y.contains(o) by {
        let i = choose|i: int| 0 <= i < leaves.len() && leaves[i] == o;
        assert(reach(m, s.offset, s.height).contains(leaves[i]));
        assert(m.dom().contains(o));
        assert(node_at::<K, V>(file, degree, o) is Some);
        lemma_aligned_offset(o as int, size);
        let index = file.index_of(o);
        assert(x.contains(index));
        assert(o == f(index));
    }
    vstd::set_lib::lemma_len_subset(leaves.to_set(), y);
}

/// Goes down from the node at `offset` along the first children to the
/// first leaf of the subtree and returns its offset.
pub fn first_leaf<K: Index, V: Value>(
    file: &NodeFile,
    degree: usize,
    offset: u64,
    height: usize,
    Ghost(s): Ghost<Slot<K>>,
) -> (r: Result<u64, Error>)
    requires
        file.wf(),
    ensures
        shape(heap::<K, V>(*file, degree as nat), degree as nat, s) && s.offset == offset
            && s.height == height ==> r == Ok::<u64, Error>(
            leftmost(heap::<K, V>(*file, degree as nat), offset, height as nat),
        ),
    decreases height,
{
    if height == 0 {
        return Ok(offset);
    }
    let node = match Node::<K, V>::read(file, offset, degree) {
        Ok(node) => node,
        Err(e) => {
            return Err(e);
        },
    };
    if node.is_leaf() || node.children.len() == 0 {
        return Err(Error::Encoding);
    }
    let ghost c = child_slot(heap::<K, V>(*file, degree as nat), node@, s, 0);
    proof {
        if shape(heap::<K, V>(*file, degree as nat), degree as nat, s) && s.offset == offset
            && s.height == height {
            lemma_child(
                heap::<K, V>(*file, degree as nat),
                degree as nat,
                s,
                (degree - 1) as nat,
                0,
            );
        }
    }
    first_leaf::<K, V>(file, degree, node.children[0], height - 1, Ghost(c))
}

/// Follows the chain of leaves from the leaf at `start` and gathers their
/// pairs. A chain that leads to a node that is not in the file or is no
/// leaf, or that does not end within as many leaves as the file has records,
/// is damage.
pub fn walk_chain<K: Index, V: Value>(file: &NodeFile, degree: usize, start: u64) -> (r: Result<
    Vec<(K, V)>,
    Error,
>)
    requires
        file.wf(),
    ensures
        match walk(heap::<K, V>(*file, degree as nat), Some(start), file.pages@.len()) {
            Some(pairs) => r is Ok && r->Ok_0@ == pairs,
            None => r is Err && r->Err_0 == Error::Encoding,
        },
{
    let ghost m = heap::<K, V>(*file, degree as nat);
    let ghost whole = walk(m, Some(start), file.pages@.len());
    let mut out: Vec<(K, V)> = Vec::new();
    let mut current: Option<u64> = Some(start);
    let mut fuel: usize = file.page_count();
    proof {
        let rest = walk(m, current, fuel as nat);
        if rest is Some {
            assert(out@ + rest->Some_0 =~= rest->Some_0);
        }
    }
    while current.is_some()
        invariant
            file.wf(),
            m == heap::<K, V>(*file, degree as nat),
            whole == walk(m, Some(start), file.pages@.len()),
            whole == followed(out@, walk(m, current, fuel as nat)),
        decreases fuel,
    {
        let offset = current.unwrap();
        if fuel == 0 {
            return Err(Error::Encoding);
        }
        let node = match Node::<K, V>::read(file, offset, degree) {
            Ok(node) => node,
            Err(e) => {
                return Err(e);
            },
        };
        let next = match node.node_type {
            crate::node_type::NodeType::Leaf(next) => next,
            crate::node_type::NodeType::Internal => {
                return Err(Error::Encoding);
            },
        };
        let ghost before = out@;
        let mut i: usize = 0;
        while i < node.keys.len()
            invariant
                i <= node.keys@.len(),
                node.values@.len() == node.keys@.len(),
                out@ == before + leaf_pairs(node@).subrange(0, i as int),
            decreases node.keys@.len() - i,
        {
            out.push((node.keys[i], node.values[i]));
            i += 1;
            assert(out@ =~= before + leaf_pairs(node@).subrange(0, i as int));
        }
        proof {
            assert(leaf_pairs(node@).subrange(0, i as int) =~= leaf_pairs(node@));
            let rest = walk(m, next, (fuel - 1) as nat);
            if rest is Some {
                assert(before + (leaf_pairs(node@) + rest->Some_0) =~= (before + leaf_pairs(node@))
                    + rest->Some_0);
            }
        }
        current = next;
        fuel = fuel - 1;
    }
    proof {
        assert(out@ + Seq::<(K, V)>::empty() =~= out@);
    }
    Ok(out)
}

} // verus!
