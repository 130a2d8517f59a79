//! Going down to the leaf of a key, and measuring the height of a tree.

use vstd::prelude::*;
use crate::error::Error;
use crate::fm::nodes::NodeFile;
use crate::index::Index;
use crate::nodes::crud::{leaf_map, lemma_route, route, sorted};
use crate::nodes::io::heap;
use crate::nodes::Node;
use crate::tree::shape::{
    child_slot, contents, in_range, leaf_of, root_slot, shape, shape_with, Slot,
};
use crate::value::Value;

verus! {

/// Goes down from the node at `offset` to the leaf that `key` belongs to and
/// reads it. At an internal node the way leads to the child before the first
/// key that exceeds `key`, or to the last child where none does; a leaf is
/// its own result.
///
/// `height` bounds the descent: a file in which the leaf is not found that
/// many levels down is damaged.
pub fn search_leaf<K: Index, V: Value>(
    file: &NodeFile,
    degree: usize,
    offset: u64,
    height: usize,
    key: &K,
    Ghost(s): Ghost<Slot<K>>,
) -> (r: Result<Node<K, V>, Error>)
    requires
        file.wf(),
    ensures
        r matches Ok(leaf) ==> leaf.degree == degree && leaf@.canonical(degree as nat)
            && !leaf.is_dirty && leaf@.is_leaf(),
        shape(heap::<K, V>(*file, degree as nat), degree as nat, s) && s.offset == offset
            && s.height == height && in_range(*key, s.low, s.high) ==> {
            &&& r matches Ok(leaf)
            &&& leaf.offset == leaf_of(
                heap::<K, V>(*file, degree as nat),
                offset,
                height as nat,
                *key,
            )
            &&& heap::<K, V>(*file, degree as nat).dom().contains(leaf.offset)
            &&& heap::<K, V>(*file, degree as nat)[leaf.offset] == leaf@
            &&& leaf@.is_leaf()
            &&& sorted(leaf.keys@)
            &&& leaf.values@.len() == leaf.keys@.len()
            &&& contents(heap::<K, V>(*file, degree as nat), offset, height as nat).get(*key)
                == leaf_map(leaf.keys@, leaf.values@).get(*key)
        },
    decreases height,
{
    let node = match Node::<K, V>::read(file, offset, degree) {
        Ok(node) => node,
        Err(e) => {
            return Err(e);
        },
    };
    if node.is_leaf() {
        if height != 0 {
            return Err(Error::Encoding);
        }
        return Ok(node);
    }
    if height == 0 {
        return Err(Error::Encoding);
    }
    let i = node.child_index(key);
    let child = node.children[i];
    proof {
        lemma_route(node.keys@, *key);
    }
    search_leaf(
        file,
        degree,
        child,
        height - 1,
        key,
        Ghost(child_slot(heap::<K, V>(*file, degree as nat), node@, s, i as int)),
    )
}

impl<K: Index, V: Value> Node<K, V> {
    /// The offset of the leaf that `index` belongs to below this node.
    ///
    /// A leaf is its own result, whether it stands in the file or not. An
    /// internal node routes by its own keys: to the child before the first
    /// key that exceeds `index`, or to the last child where none does, so
    /// that a key equal to a separator goes right. That child is read from
    /// the file, and the search goes on in it for `height - 1` levels.
    ///
    /// An internal node with no level left below it, or without the child
    /// that its keys route to, is reported as damaged.
    pub fn search_node(&self, file: &NodeFile, height: usize, index: K) -> (r: Result<u64, Error>)
        requires
            file.wf(),
        ensures
            self@.is_leaf() ==> r == Ok::<u64, Error>(self.offset),
            !self@.is_leaf() && (height == 0 || route(self.keys@, index) >= self.children@.len())
                ==> r == Err::<u64, Error>(Error::Encoding),
            !self@.is_leaf() && height > 0 && route(self.keys@, index) < self.children@.len() && (
            exists|c: Slot<K>| #[trigger]
                shape(heap::<K, V>(*file, self.degree as nat), self.degree as nat, c) && c.offset
                    == self.children@[route(self.keys@, index)] && c.height == height - 1
                    && in_range(index, c.low, c.high)) ==> r == Ok::<u64, Error>(
                leaf_of(
                    heap::<K, V>(*file, self.degree as nat),
                    self.children@[route(self.keys@, index)],
                    (height - 1) as nat,
                    index,
                ),
            ),
    {
        if self.is_leaf() {
            return Ok(self.offset);
        }
        if height == 0 {
            return Err(Error::Encoding);
        }
        let i = self.child_index(&index);
        if i >= self.children.len() {
            return Err(Error::Encoding);
        }
        let child = self.children[i];
        let ghost m = heap::<K, V>(*file, self.degree as nat);
        let ghost c = choose|c: Slot<K>| #[trigger]
            shape(m, self.degree as nat, c) && c.offset == child && c.height == height - 1
                && in_range(index, c.low, c.high);
        match search_leaf::<K, V>(file, self.degree, child, height - 1, &index, Ghost(c)) {
            Ok(leaf) => Ok(leaf.offset),
            Err(e) => Err(e),
        }
    }
}

/// A well-formed subtree has one height only.
pub proof fn lemma_height_unique<K: Index, V: Value>(
    m: crate::nodes::io::Heap<K, V>,
    degree: nat,
    a: Slot<K>,
    b: Slot<K>,
    room: nat,
)
    requires
        shape_with(m, degree, a, room),
        shape_with(m, degree, b, room),
        a.offset == b.offset,
    ensures
        a.height == b.height,
    decreases a.height,
{
    let n = m[a.offset];
    if a.height > 0 && b.height > 0 {
        let ca = child_slot(m, n, a, 0);
        let cb = child_slot(m, n, b, 0);
        assert(shape_with(m, degree, ca, (degree - 1) as nat));
        assert(shape_with(m, degree, cb, (degree - 1) as nat));
        lemma_height_unique(m, degree, ca, cb, (degree - 1) as nat);
    }
}

/// The number of levels from the node at `offset` down to a leaf along the
/// first children, if the nodes on that way decode and a leaf is met within
/// `fuel` levels.
pub open spec fn depth_below<K, V>(m: crate::nodes::io::Heap<K, V>, offset: u64, fuel: nat) -> Option<
    nat,
>
    decreases fuel,
{
    if !m.dom().contains(offset) {
        None
    } else if m[offset].is_leaf() {
        Some(0)
    } else if fuel == 0 || m[offset].children.len() == 0 {
        None
    } else {
        match depth_below(m, m[offset].children[0], (fuel - 1) as nat) {
            Some(h) => Some(h + 1),
            None => None,
        }
    }
}

/// A leaf that is met within `fuel` levels lies no deeper than that.
pub proof fn lemma_depth_bound<K, V>(m: crate::nodes::io::Heap<K, V>, offset: u64, fuel: nat)
    ensures
        depth_below(m, offset, fuel) matches Some(h) ==> h <= fuel,
    decreases fuel,
{
    if m.dom().contains(offset) && !m[offset].is_leaf() && fuel > 0 && m[offset].children.len()
        > 0 {
        lemma_depth_bound(m, m[offset].children[0], (fuel - 1) as nat);
    }
}

/// Counts the levels from the node at `offset` down to a leaf, along the
/// first children. A file in which no leaf is met within `fuel` levels is
/// damaged.
pub fn descend_height<K: Index, V: Value>(
    file: &NodeFile,
    degree: usize,
    offset: u64,
    fuel: usize,
    Ghost(s): Ghost<Slot<K>>,
) -> (r: Result<usize, Error>)
    requires
        file.wf(),
    ensures
        r matches Ok(h) ==> h <= fuel,
        match depth_below(heap::<K, V>(*file, degree as nat), offset, fuel as nat) {
            Some(h) => r == Ok::<usize, Error>(h as usize),
            None => r == Err::<usize, Error>(Error::Encoding),
        },
        shape(heap::<K, V>(*file, degree as nat), degree as nat, s) && s.offset == offset
            && s.height <= fuel ==> r == Ok::<usize, Error>(s.height as usize),
    decreases fuel,
{
    let node = match Node::<K, V>::read(file, offset, degree) {
        Ok(node) => node,
        Err(e) => {
            return Err(e);
        },
    };
    if node.is_leaf() {
        return Ok(0);
    }
    if fuel == 0 || node.children.len() == 0 {
        return Err(Error::Encoding);
    }
    let child = node.children[0];
    let ghost c = child_slot(heap::<K, V>(*file, degree as nat), node@, s, 0);
    proof {
        lemma_depth_bound(heap::<K, V>(*file, degree as nat), child, (fuel - 1) as nat);
        if shape(heap::<K, V>(*file, degree as nat), degree as nat, s) && s.offset == offset
            && s.height <= fuel {
            assert(shape_with(
                heap::<K, V>(*file, degree as nat),
                degree as nat,
                c,
                (degree - 1) as nat,
            ));
        }
    }
    match descend_height::<K, V>(file, degree, child, fuel - 1, Ghost(c)) {
        Ok(h) => Ok(h + 1),
        Err(e) => Err(e),
    }
}

/// The height of the tree in the file: the number of levels above the
/// leaves. Where the file holds a well-formed tree of a height below its
/// number of records, that height is found.
pub fn height_of<K: Index, V: Value>(file: &NodeFile, degree: usize) -> (r: Result<usize, Error>)
    requires
        file.wf(),
    ensures
        r matches Ok(h) ==> h <= file.pages@.len(),
        match depth_below(heap::<K, V>(*file, degree as nat), 0, file.pages@.len() as nat) {
            Some(h) => r == Ok::<usize, Error>(h as usize),
            None => r == Err::<usize, Error>(Error::Encoding),
        },
        forall|h: nat|
            #![trigger root_slot::<K>(h)]
            shape(heap::<K, V>(*file, degree as nat), degree as nat, root_slot::<K>(h)) && h
                < file.pages@.len() ==> r == Ok::<usize, Error>(h as usize),
{
    let ghost m = heap::<K, V>(*file, degree as nat);
    let ghost h0 = choose|h: nat|
        shape(m, degree as nat, root_slot::<K>(h)) && h < file.pages@.len();
    let r = descend_height::<K, V>(file, degree, 0, file.page_count(), Ghost(root_slot::<K>(h0)));
    proof {
        lemma_depth_bound(m, 0, file.pages@.len() as nat);
        assert forall|h: nat|
            #![trigger root_slot::<K>(h)]
            shape(m, degree as nat, root_slot::<K>(h)) && h < file.pages@.len() implies r == Ok::<
            usize,
            Error,
        >(h as usize) by {
            lemma_height_unique(
                m,
                degree as nat,
                root_slot::<K>(h),
                root_slot::<K>(h0),
                (degree - 1) as nat,
            );
        }
    }
    r
}

} // verus!
