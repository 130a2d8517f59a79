//! The tree: the coordinator that owns the root and the node file.

use vstd::prelude::*;
use crate::error::Error;
use crate::fm::nodes::NodeFile;
use crate::index::Index;
use crate::nodes::io::{
    all_exact, exact_kept, lemma_exact_of_records, lemma_exact_written, one_root, written_exact,
};
use crate::nodes::io::{
    heap, lemma_heap_after_write, lemma_heap_of_records, lemma_node_encoding_parts, node_at,
};
use crate::nodes::layout::{layout, layout_fits, node_size};
use crate::node_type::NodeType;
use crate::nodes::Node;
use crate::tree::absorb::lemma_put_top;
use crate::tree::delete::{
    erasing, lacks_keys, leaf_keeps, leaf_taken, remove_from, shrunk_below, shrunk_top,
};
use crate::tree::grow::{leaf_set, leaf_with};
use crate::tree::insert::{
    growing_writes, writes, added_below, file_ok, full_path, insert_into, leaf_full, left_place,
    lemma_added_below_bound,
    lemma_full_path_leaf, lemma_room, place_node, placeable, settled, settled_below, split_root, taken_keys, taken_top, update_in,
};
use crate::tree::moved::with_leaf_moved;
use crate::tree::shape::leaf_of;
use crate::tree::relocate::{grown, moved_top, new_root, relocated};
use crate::tree::shrink::{lemma_collapse, lemma_took_top};
use crate::tree::scan::{
    ascending, first_leaf, lemma_leaves_fit, lemma_pairs, lemma_walk, lists, pairs_of, walk_chain,
};
use crate::tree::search::{depth_below, height_of, lemma_depth_bound, search_leaf};
use crate::tree::shape::{contents, root_slot, shape};
use crate::value::Value;

pub mod shape;
pub mod frame;
pub mod grow;
pub mod reparent;
pub mod divide;
pub mod rebuild;
pub mod absorb;
pub mod relocate;
pub mod moved;
pub mod halve;
pub mod merge;
pub mod shrink;
pub mod delete;
pub mod insert;
pub mod search;
pub mod scan;
pub mod laws;

verus! {

/// An ordered index of keys and values, kept as a B+Tree in a node file.
///
/// The tree owns the image of its node file and a copy of the root, the
/// node at offset zero. It is closed until it is opened on the bytes of the
/// file, and reads and changes the index only while it is open.
#[derive(Clone, Debug)]
pub struct Tree<K: Index, V: Value> {
    pub name: String,
    pub degree: usize,
    pub root: Node<K, V>,
    pub file: NodeFile,
    pub is_open: bool,
    pub height: usize,
}

impl<K: Index, V: Value> View for Tree<K, V> {
    type V = Map<K, V>;

    /// What the index holds: each key with its value.
    open spec fn view(&self) -> Map<K, V> {
        contents(heap::<K, V>(self.file, self.degree as nat), 0, self.height as nat)
    }
}

impl<K: Index, V: Value> Tree<K, V> {
    /// What every tree is held to, open or closed: the node file is in
    /// order, with records of the size of a node, and the degree is odd and
    /// at least three.
    pub open spec fn inv(&self) -> bool {
        file_ok::<K, V>(self.file, self.degree as nat)
    }

    /// Whether the tree is open on a file that holds a well-formed B+Tree of
    /// the tree's height, with the root in memory as it stands in the file.
    /// A tree that is opened on the bytes of a new file is so, and every
    /// operation keeps it so.
    pub open spec fn wf(&self) -> bool {
        &&& self.inv()
        &&& self.is_open
        &&& Self::holds_tree(self.file, self.degree as nat, self.height as nat)
        &&& heap::<K, V>(self.file, self.degree as nat)[0] == self.root@
        &&& self.root.degree == self.degree
        &&& !self.root.is_dirty
    }

    /// Whether every record of the file that stands for a node holds exactly
    /// the encoding of that node, so that what the nodes are fixes the bytes
    /// of the file, and no record but the one at offset zero is marked as
    /// the root. The file of a new tree is so, and every operation on a
    /// well-formed tree keeps it so.
    pub open spec fn exact(&self) -> bool {
        &&& all_exact::<K, V>(self.file, self.degree as nat)
        &&& one_root::<K, V>(self.file, self.degree as nat)
    }

    /// Whether the root, where it is not what it was in `before`, was the
    /// last node to be written: after every node below it that has changed.
    pub open spec fn root_written_last(&self, before: Self) -> bool {
        self.root@ == before.root@ || (self.file.journal@.len() > 0 && self.file.journal@.last()
            == 0)
    }

    /// Whether a file holds a well-formed B+Tree of the given height: the
    /// nodes from offset zero down form one, and the file has more records
    /// than the tree has levels above the leaves.
    pub open spec fn holds_tree(file: NodeFile, degree: nat, height: nat) -> bool {
        &&& shape(heap::<K, V>(file, degree), degree, root_slot(height))
        &&& height < file.pages@.len()
    }

    /// Whether putting in `key` makes the tree grow by a level: every node on
    /// the way from the root down to the leaf that the key belongs to is
    /// full, so that each of them is divided, the root at last.
    pub open spec fn grows_with(&self, key: K) -> bool {
        full_path(
            heap::<K, V>(self.file, self.degree as nat),
            self.degree as nat,
            0,
            self.height as nat,
            key,
        )
    }

    /// What looking `key` up in a well-formed tree gives: the value of the
    /// key, or that the key is not found.
    pub open spec fn get_result(&self, key: K) -> Result<V, Error> {
        match self@.get(key) {
            Some(value) => Ok(value),
            None => Err(Error::NotFound),
        }
    }

    /// How many records an insertion may add at most: two where the root is
    /// a leaf, and else two for a leaf, one for each internal node below the
    /// root and two for the root, which is one for each level and three more.
    pub open spec fn records_needed(&self) -> nat {
        if self.height == 0 {
            2
        } else {
            (self.height + 3) as nat
        }
    }

    /// What putting `key` into a well-formed tree gives: the file has no
    /// room where it cannot grow by the records that may be needed;
    /// otherwise a key that is in the index is a duplicate, and any other key
    /// goes in.
    pub open spec fn insert_result(&self, key: K) -> Result<(), Error> {
        if !self.file.has_room(self.records_needed()) {
            Err(Error::Io)
        } else if self@.contains_key(key) {
            Err(Error::DuplicateKey)
        } else {
            Ok(())
        }
    }

    /// What taking `key` out of a well-formed tree gives: a key that is in
    /// the index goes out, any other is not found.
    pub open spec fn delete_result(&self, key: K) -> Result<(), Error> {
        if self@.contains_key(key) {
            Ok(())
        } else {
            Err(Error::NotFound)
        }
    }

    /// Whether `after` is the well-formed tree `before` with `key` and
    /// `value` put in.
    ///
    /// The index holds the pair besides what it held. The tree is one level
    /// higher exactly if every node on the way to the key's leaf was full.
    /// The file has grown by two records where the key's leaf was divided,
    /// by one for each internal node below the root that was, and by two
    /// where the root was. Where the leaf had room, the
    /// leaf with the pair in it is the one node that has changed. Where the
    /// root was divided, the new root has one key, the key at the middle
    /// index of the root with one key too many, and two children: the left
    /// half, in the last record, and the right half, in the one before it. A
    /// root that has changed was written last. What each record of the file
    /// then holds is said by `file_with`, and which records were written, in
    /// which order, by `writes_with`.
    pub open spec fn put(before: Self, after: Self, key: K, value: V) -> bool {
        let m = heap::<K, V>(before.file, before.degree as nat);
        let count = before.file.pages@.len();
        &&& after.wf()
        &&& after.degree == before.degree
        &&& after.name == before.name
        &&& after@ == before@.insert(key, value)
        &&& after.height == if before.grows_with(key) {
            before.height + 1
        } else {
            before.height as int
        }
        &&& after.root_written_last(before)
        &&& after.file.pages@.len() == count + before.records_added(key)
        &&& before.leaf_has_room(key) ==> heap::<K, V>(after.file, before.degree as nat)
            == m.insert(before.leaf_for(key), leaf_with(m[before.leaf_for(key)], key, value))
        &&& before.grows_with(key) ==> after.root@ == new_root::<K, V>(
            before.rising_key(key),
            before.record_offset((count + before.added_below(key) + 1) as nat),
            before.record_offset((count + before.added_below(key)) as nat),
        )
        &&& heap::<K, V>(after.file, before.degree as nat) == before.file_with(key, value)
        &&& after.file.journal@ == before.file.journal@ + before.writes_with(key, value)
        &&& after.exactly_written(before)
        &&& before.exact() ==> after.exact()
    }

    /// Whether every record that was written since the tree was `before`
    /// holds exactly the encoding of the node that it stands for, and
    /// nothing else: the bytes that no field takes are zero.
    pub open spec fn exactly_written(&self, before: Self) -> bool {
        written_exact::<K, V>(self.file, self.degree as nat, before.file.journal@.len() as int)
    }

    /// The records written, in the order of the writes, when `key` and
    /// `value` are put in: from the leaf upwards, each node after every node
    /// below it that has changed, and the root at last where it has changed.
    pub open spec fn writes_with(&self, key: K, value: V) -> Seq<u64> {
        let m = heap::<K, V>(self.file, self.degree as nat);
        let count = self.file.pages@.len();
        let end = self.file.end();
        let size = self.file.page_size as int;
        let below = writes(m, self.degree as nat, 0, self.height as nat, key, value, end, size);
        if self.grows_with(key) {
            below + growing_writes(
                taken_top(m, self.degree as nat, 0, self.height as nat, key, value, end, size),
                self.record_offset((count + self.added_below(key) + 1) as nat),
                self.record_offset((count + self.added_below(key)) as nat),
                (self.degree / 2) as int,
            )
        } else {
            below
        }
    }

    /// The nodes of the file once `key` and `value` are put in.
    ///
    /// From the leaf upwards each node on the key's way takes what comes up
    /// from below: the leaf the pair, a node above it the separator and the
    /// right half of a child that was divided. A node below the root that
    /// then has one key too many is divided at the middle index, the right
    /// half going to a new record at the end of the file. A root that has one
    /// key too many is divided into two new records, the right half before
    /// the left, and a new root over both takes its place.
    pub open spec fn file_with(&self, key: K, value: V) -> crate::nodes::io::Heap<K, V> {
        let m = heap::<K, V>(self.file, self.degree as nat);
        let count = self.file.pages@.len();
        let end = self.file.end();
        let size = self.file.page_size as int;
        if self.grows_with(key) {
            grown(
                settled_below(m, self.degree as nat, 0, self.height as nat, key, value, end, size),
                self.degree as nat,
                taken_top(m, self.degree as nat, 0, self.height as nat, key, value, end, size),
                self.record_offset((count + self.added_below(key) + 1) as nat),
                self.record_offset((count + self.added_below(key)) as nat),
            )
        } else {
            settled(m, self.degree as nat, 0, self.height as nat, key, value, end, size)
        }
    }

    /// Whether `after` is the well-formed tree `before` with `key` taken
    /// out.
    ///
    /// The index holds what it held but for the key. The tree is one level
    /// lower exactly if the root is left without a key, and the file has as
    /// many records as it had; what each of them holds is said by
    /// `file_without`, and which were written, in which order, by
    /// `writes_without`. A root that has changed was written last. Where the
    /// key's leaf has keys enough without the key, that leaf without the pair
    /// is the one node that has changed, and the one record written.
    pub open spec fn taken(before: Self, after: Self, key: K) -> bool {
        &&& after.wf()
        &&& after.degree == before.degree
        &&& after.name == before.name
        &&& after@ == before@.remove(key)
        &&& after.height == if before.shrinks_with(key) {
            before.height - 1
        } else {
            before.height as int
        }
        &&& after.file.pages@.len() == before.file.pages@.len()
        &&& after.root_written_last(before)
        &&& heap::<K, V>(after.file, before.degree as nat) == before.file_without(key)
        &&& after.file.journal@ == before.file.journal@ + before.writes_without(key)
        &&& after.exactly_written(before)
        &&& before.exact() ==> after.exact()
        &&& before.leaf_keeps(key) ==> {
            &&& after.height == before.height
            &&& heap::<K, V>(after.file, before.degree as nat) == leaf_taken(
                heap::<K, V>(before.file, before.degree as nat),
                0,
                before.height as nat,
                key,
            )
            &&& after.file.journal@ == before.file.journal@.push(before.leaf_for(key))
        }
    }

    /// Whether taking out `key` makes the tree one level lower: the root is
    /// left without a key once the nodes below it are set right.
    pub open spec fn shrinks_with(&self, key: K) -> bool {
        lacks_keys(
            shrunk_top(
                heap::<K, V>(self.file, self.degree as nat),
                self.degree as nat,
                0,
                self.height as nat,
                key,
            ),
            self.degree as nat,
            0,
            self.height as nat,
        )
    }

    /// The nodes of the file once `key`, which the index holds, is taken
    /// out.
    ///
    /// From the leaf upwards each node on the key's way is dealt with: the
    /// leaf gives the pair up; a node that is left with fewer keys than the
    /// least and a neighbour become one node where that fits a page, and
    /// share out what they hold where it does not; the node above loses or
    /// changes their separator. A root that is left without a key gives way
    /// to its one child, which is copied to offset zero.
    pub open spec fn file_without(&self, key: K) -> crate::nodes::io::Heap<K, V> {
        let m = heap::<K, V>(self.file, self.degree as nat);
        let below = shrunk_below(m, self.degree as nat, 0, self.height as nat, key);
        let top = shrunk_top(m, self.degree as nat, 0, self.height as nat, key);
        if self.shrinks_with(key) {
            relocated(below, top.children[0], 0, 0)
        } else {
            below.insert(0, top)
        }
    }

    /// The records written, in the order of the writes, when `key` is taken
    /// out: from the leaf upwards, each node after every node below it that
    /// has changed. Where the tree becomes one level lower, the children of
    /// the new root are told of their parent, and the root is written last.
    pub open spec fn writes_without(&self, key: K) -> Seq<u64> {
        let m = heap::<K, V>(self.file, self.degree as nat);
        let below = shrunk_below(m, self.degree as nat, 0, self.height as nat, key);
        let top = shrunk_top(m, self.degree as nat, 0, self.height as nat, key);
        let first = erasing(m, self.degree as nat, 0, self.height as nat, key);
        if self.shrinks_with(key) {
            (first + below[top.children[0]].children).push(0)
        } else {
            first
        }
    }

    /// Whether the leaf that `key` belongs to has keys enough once it gives
    /// the key up: it is the root, or it holds more keys than half the
    /// degree, rounded down.
    pub open spec fn leaf_keeps(&self, key: K) -> bool {
        leaf_keeps(
            heap::<K, V>(self.file, self.degree as nat),
            self.degree as nat,
            0,
            self.height as nat,
            key,
        )
    }

    /// The nodes of the file once `key`, which the index holds, has the
    /// value `value`: the key's leaf holds the value for the key, and no
    /// other node has changed.
    pub open spec fn file_set(&self, key: K, value: V) -> crate::nodes::io::Heap<K, V> {
        let m = heap::<K, V>(self.file, self.degree as nat);
        m.insert(self.leaf_for(key), leaf_set(m[self.leaf_for(key)], key, value))
    }

    /// The leaf that `key` belongs to.
    pub open spec fn leaf_for(&self, key: K) -> u64 {
        leaf_of(heap::<K, V>(self.file, self.degree as nat), 0, self.height as nat, key)
    }

    /// Whether the leaf that `key` belongs to has room for one key more.
    pub open spec fn leaf_has_room(&self, key: K) -> bool {
        !leaf_full(
            heap::<K, V>(self.file, self.degree as nat),
            self.degree as nat,
            0,
            self.height as nat,
            key,
        )
    }

    /// How many records are added below the root when `key` is put in: two
    /// for the key's leaf where it is divided, and one for each internal node
    /// below the root that is.
    pub open spec fn added_below(&self, key: K) -> nat {
        added_below(
            heap::<K, V>(self.file, self.degree as nat),
            self.degree as nat,
            0,
            self.height as nat,
            key,
        )
    }

    /// How many records the file grows by when `key` is put in: two for a
    /// leaf that is divided, one for each internal node below the root that
    /// is, and two where the root is.
    pub open spec fn records_added(&self, key: K) -> nat {
        self.added_below(key) + if self.grows_with(key) {
            2nat
        } else {
            0nat
        }
    }

    /// The key that goes up into the new root where putting in `key` divides
    /// the root: the key at the middle index, half the degree, of the root
    /// with one key too many.
    pub open spec fn rising_key(&self, key: K) -> K {
        taken_keys(
            heap::<K, V>(self.file, self.degree as nat),
            self.degree as nat,
            0,
            self.height as nat,
            key,
        )[(self.degree / 2) as int]
    }

    /// The offset at which the record of the given number starts.
    pub open spec fn record_offset(&self, number: nat) -> u64 {
        (number * self.file.page_size) as u64
    }

    /// Whether `degree` can be the degree of a tree: odd, at least three,
    /// and such that a node can be laid out on this machine.
    pub open spec fn valid_degree(degree: nat) -> bool {
        degree >= 3 && degree % 2 == 1 && layout_fits::<K, V>(degree)
    }

    /// A closed tree of the given name and degree, with an empty node file.
    /// A degree that is even, below three or too large for a node to be laid
    /// out is a configuration error.
    pub fn new(name: String, degree: usize) -> (r: Result<Self, Error>)
        ensures
            Self::valid_degree(degree as nat) ==> r is Ok && r->Ok_0.inv() && !r->Ok_0.is_open
                && r->Ok_0.name == name && r->Ok_0.degree == degree && r->Ok_0.height == 0
                && r->Ok_0.file.pages@.len() == 0 && r->Ok_0.file.journal@.len() == 0,
            !Self::valid_degree(degree as nat) ==> r is Err && r->Err_0 == Error::Configuration,
    {
        if degree < 3 || degree % 2 == 0 {
            return Err(Error::Configuration);
        }
        let size = match layout::<K, V>(degree) {
            Some(l) => l.node_size,
            None => {
                return Err(Error::Configuration);
            },
        };
        proof {
            crate::nodes::layout::lemma_layout_order::<K, V>(degree as nat);
        }
        let mut root = Node::<K, V>::make_leaf(degree, None);
        root.set_root();
        Ok(Tree { name, degree, root, file: NodeFile::new(size), is_open: false, height: 0 })
    }

    /// Whether the tree is open.
    pub fn is_open(&self) -> (r: bool)
        ensures
            r == self.is_open,
    {
        self.is_open
    }

    /// Opens the tree on the bytes of its node file.
    ///
    /// With no bytes the file is new: an empty leaf is written at offset
    /// zero as the root. Otherwise the bytes are taken apart into records,
    /// the root is read from offset zero and the height is measured along
    /// the first children. Bytes that do not make whole records, a root that
    /// does not decode and a way down that meets no leaf within as many
    /// levels as the file has records are damage: each is reported, and the
    /// tree then stays closed. A tree that is open already stays as it is.
    pub fn open(&mut self, image: Vec<u8>) -> (r: Result<(), Error>)
        requires
            old(self).inv(),
        ensures
            final(self).inv(),
            final(self).degree == old(self).degree,
            final(self).name == old(self).name,
            old(self).is_open ==> r is Ok && *final(self) == *old(self),
            r is Ok ==> final(self).is_open,
            r is Err ==> *final(self) == *old(self),
            !old(self).is_open && image@.len() == 0 ==> {
                &&& r is Ok
                &&& final(self).wf()
                &&& final(self)@ == Map::<K, V>::empty()
                &&& final(self).height == 0
                &&& final(self).file.pages@.len() == 1
                &&& final(self).file.journal@ == seq![0u64]
                &&& final(self).root.keys@.len() == 0
                &&& final(self).root.node_type == NodeType::Leaf(None)
                &&& final(self).exact()
            },
            !old(self).is_open && image@.len() > 0 ==> match NodeFile::pages_of(
                image@,
                old(self).file.page_size as nat,
            ) {
                None => r == Err::<(), Error>(Error::Encoding),
                Some(pages) => {
                    &&& r is Ok ==> final(self).file.records() == pages
                        && final(self).file.journal@.len() == 0
                    &&& forall|f: NodeFile|
                        f.page_size == old(self).file.page_size && #[trigger] f.records() == pages
                            ==> match depth_below(
                            heap::<K, V>(f, old(self).degree as nat),
                            0,
                            pages.len(),
                        ) {
                            Some(h) if h < pages.len() => {
                                &&& r is Ok
                                &&& final(self).height == h
                                &&& final(self).root@ == heap::<K, V>(
                                    f,
                                    old(self).degree as nat,
                                )[0]
                            },
                            _ => r == Err::<(), Error>(Error::Encoding),
                        }
                    &&& forall|f: NodeFile|
                        f.page_size == old(self).file.page_size && #[trigger] f.records() == pages
                            && all_exact::<K, V>(f, old(self).degree as nat) && one_root::<K, V>(
                            f,
                            old(self).degree as nat,
                        ) && r is Ok ==> final(self).exact()
                    &&& forall|f: NodeFile, h: nat|
                        f.page_size == old(self).file.page_size && f.records() == pages
                            && #[trigger] Self::holds_tree(f, old(self).degree as nat, h) ==> {
                            &&& r is Ok
                            &&& final(self).wf()
                            &&& final(self).height == h
                            &&& final(self)@ == contents(
                                heap::<K, V>(f, old(self).degree as nat),
                                0,
                                h,
                            )
                        }
                },
            },
    {
        if self.is_open {
            return Ok(());
        }
        let degree = self.degree;
        proof {
            let size = self.file.page_size as int;
            if image@.len() == 0 {
                assert(0int % size == 0 && 0int / size == 0);
            } else if image@.len() as int % size == 0 {
                assert(image@.len() as int / size > 0) by (nonlinear_arith)
                    requires
                        image@.len() > 0,
                        size > 0,
                        image@.len() as int % size == 0,
                ;
            }
        }
        let mut file = match NodeFile::from_bytes(&image, self.file.page_size) {
            Ok(file) => file,
            Err(e) => {
                return Err(e);
            },
        };
        let ghost pages = NodeFile::pages_of(image@, self.file.page_size as nat)->Some_0;
        proof {
            assert(file.records().len() == file.pages@.len());
        }
        if file.page_count() == 0 {
            let ghost file0 = file;
            let mut root = Node::<K, V>::make_leaf(degree, None);
            root.set_root();
            root.set_dirty();
            proof {
                lemma_node_encoding_parts::<K, V>(root@, degree as nat);
                assert(0u64 as int % file.page_size as int == 0);
                assert(0u64 as int / file.page_size as int == 0);
                assert(root.writable(file));
            }
            match root.write(&mut file) {
                Ok(_) => {},
                Err(e) => {
                    return Err(e);
                },
            }
            proof {
                lemma_heap_after_write::<K, V>(file0, file, root@, degree as nat);
                assert(all_exact::<K, V>(file0, degree as nat)) by {
                    reveal(all_exact);
                }
                assert(one_root::<K, V>(file0, degree as nat)) by {
                    reveal(one_root);
                }
                let m = heap::<K, V>(file, degree as nat);
                assert(contents(m, 0, 0) =~= Map::<K, V>::empty());
                assert(file.journal@ =~= seq![0u64]);
            }
            self.file = file;
            self.root = root;
            self.height = 0;
            self.is_open = true;
            return Ok(());
        }
        let loaded = Self::load_root(&file, degree);
        proof {
            assert forall|f: NodeFile|
                f.page_size == file.page_size && #[trigger] f.records() == pages implies heap::<
                K,
                V,
            >(f, degree as nat) == heap::<K, V>(file, degree as nat) by {
                lemma_heap_of_records::<K, V>(f, file, degree as nat);
            }
            assert forall|f: NodeFile|
                f.page_size == file.page_size && #[trigger] f.records() == pages && all_exact::<
                    K,
                    V,
                >(f, degree as nat) && one_root::<K, V>(f, degree as nat) implies all_exact::<
                K,
                V,
            >(file, degree as nat) && one_root::<K, V>(file, degree as nat) by {
                lemma_exact_of_records::<K, V>(f, file, degree as nat);
            }
            assert forall|f: NodeFile, h: nat|
                f.page_size == file.page_size && f.records() == pages
                    && #[trigger] Self::holds_tree(f, degree as nat, h) implies loaded is Ok
                && loaded->Ok_0.1 == h && heap::<K, V>(f, degree as nat) == heap::<K, V>(
                file,
                degree as nat,
            ) by {
                lemma_heap_of_records::<K, V>(f, file, degree as nat);
                assert(f.records().len() == f.pages@.len());
                assert(shape(
                    heap::<K, V>(file, degree as nat),
                    degree as nat,
                    root_slot::<K>(h),
                ));
            }
        }
        match loaded {
            Ok((root, height)) => {
                self.file = file;
                self.root = root;
                self.height = height;
                self.is_open = true;
                Ok(())
            },
            Err(e) => Err(e),
        }
    }

    /// Reads the root and measures the height of the tree in a file.
    fn load_root(file: &NodeFile, degree: usize) -> (r: Result<(Node<K, V>, usize), Error>)
        requires
            file.wf(),
        ensures
            r matches Ok((root, height)) ==> root.degree == degree && !root.is_dirty,
            match depth_below(heap::<K, V>(*file, degree as nat), 0, file.pages@.len() as nat) {
                Some(h) if h < file.pages@.len() => r is Ok && r->Ok_0.1 == h && r->Ok_0.0@
                    == heap::<K, V>(*file, degree as nat)[0],
                _ => r is Err && r->Err_0 == Error::Encoding,
            },
            forall|h: nat|
                #![trigger root_slot::<K>(h)]
                shape(heap::<K, V>(*file, degree as nat), degree as nat, root_slot::<K>(h)) && h
                    < file.pages@.len() ==> r is Ok && r->Ok_0.1 == h && heap::<K, V>(
                    *file,
                    degree as nat,
                )[0] == r->Ok_0.0@,
    {
        let root = match Node::<K, V>::read(file, 0, degree) {
            Ok(root) => root,
            Err(e) => {
                return Err(e);
            },
        };
        proof {
            lemma_depth_bound(heap::<K, V>(*file, degree as nat), 0, file.pages@.len() as nat);
        }
        let height = match height_of::<K, V>(file, degree) {
            Ok(height) => height,
            Err(e) => {
                return Err(e);
            },
        };
        if height >= file.page_count() {
            return Err(Error::Encoding);
        }
        Ok((root, height))
    }

    /// Reads the tree anew from the bytes of its own node file, as a restart
    /// does: the tree is closed and opened again on the image. A well-formed
    /// tree comes back as it was, with the same height and the same pairs.
    /// The journal starts anew.
    pub fn reload(&mut self) -> (r: Result<(), Error>)
        requires
            old(self).inv(),
        ensures
            final(self).inv(),
            final(self).degree == old(self).degree,
            final(self).name == old(self).name,
            !old(self).is_open ==> r is Err && r->Err_0 == Error::NotInitialized && *final(self)
                == *old(self),
            old(self).wf() ==> r is Ok && final(self).wf() && final(self)@ == old(self)@
                && final(self).height == old(self).height && final(self).file.records() == old(
                self,
            ).file.records() && final(self).file.journal@.len() == 0 && (old(self).exact()
                ==> final(self).exact()),
    {
        if !self.is_open {
            return Err(Error::NotInitialized);
        }
        let ghost before = *self;
        let image = self.file.to_bytes();
        self.is_open = false;
        proof {
            if before.wf() {
                assert(Self::holds_tree(
                    before.file,
                    before.degree as nat,
                    before.height as nat,
                ));
                assert(before.file.records().len() == before.file.pages@.len());
                assert(0int / (before.file.page_size as int) == 0);
                assert(image@.len() > 0);
            }
        }
        match self.open(image) {
            Ok(()) => Ok(()),
            Err(e) => {
                self.is_open = true;
                Err(e)
            },
        }
    }

    /// Closes the tree: the root is brought up to date on file and the tree
    /// reads and changes nothing until it is opened again. The image of the
    /// file stays with the tree. A closed tree stays closed.
    pub fn close(&mut self) -> (r: Result<(), Error>)
        requires
            old(self).inv(),
        ensures
            final(self).inv(),
            !final(self).is_open,
            final(self).degree == old(self).degree,
            final(self).name == old(self).name,
            !old(self).is_open ==> r is Ok && *final(self) == *old(self),
            old(self).wf() ==> r is Ok && *final(self) == (Tree { is_open: false, ..*old(self) }),
    {
        if !self.is_open {
            return Ok(());
        }
        self.is_open = false;
        match self.root.write(&mut self.file) {
            Ok(_) => Ok(()),
            Err(e) => Err(e),
        }
    }

    /// Looks `key` up: goes down to the leaf that the key belongs to and
    /// finds the key among the keys of the leaf. A key that is not there is
    /// reported as not found.
    pub fn get(&self, key: K) -> (r: Result<V, Error>)
        requires
            self.inv(),
        ensures
            !self.is_open ==> r == Err::<V, Error>(Error::NotInitialized),
            self.wf() ==> r == self.get_result(key),
    {
        if !self.is_open {
            return Err(Error::NotInitialized);
        }
        let leaf = match search_leaf::<K, V>(
            &self.file,
            self.degree,
            0,
            self.height,
            &key,
            Ghost(root_slot(self.height as nat)),
        ) {
            Ok(leaf) => leaf,
            Err(e) => {
                return Err(e);
            },
        };
        match leaf.lookup(&key) {
            Some(value) => Ok(value),
            None => Err(Error::NotFound),
        }
    }

    /// The value of `key`, or none where the key is not in the index or the
    /// tree is not open.
    pub fn search(&self, key: K) -> (r: Option<V>)
        requires
            self.inv(),
        ensures
            !self.is_open ==> r is None,
            self.wf() ==> r == self@.get(key),
    {
        match self.get(key) {
            Ok(value) => Some(value),
            Err(_) => None,
        }
    }

    /// All pairs of the index in ascending order of their keys, gathered by
    /// following the chain of leaves from the first leaf.
    pub fn scan(&self) -> (r: Result<Vec<(K, V)>, Error>)
        requires
            self.inv(),
        ensures
            !self.is_open ==> r is Err && r->Err_0 == Error::NotInitialized,
            self.wf() ==> r is Ok && ascending(r->Ok_0@) && lists(r->Ok_0@, self@),
    {
        if !self.is_open {
            return Err(Error::NotInitialized);
        }
        let ghost m = heap::<K, V>(self.file, self.degree as nat);
        let ghost s = root_slot::<K>(self.height as nat);
        let first = match first_leaf::<K, V>(&self.file, self.degree, 0, self.height, Ghost(s)) {
            Ok(first) => first,
            Err(e) => {
                return Err(e);
            },
        };
        proof {
            if self.wf() {
                let room = (self.degree - 1) as nat;
                lemma_leaves_fit::<K, V>(self.file, self.degree as nat, s, room);
                lemma_walk(m, self.degree as nat, s, room, self.file.pages@.len());
                lemma_pairs(m, self.degree as nat, s, room);
                assert(pairs_of(m, 0, self.height as nat) + Seq::<(K, V)>::empty() =~= pairs_of(
                    m,
                    0,
                    self.height as nat,
                ));
            }
        }
        walk_chain::<K, V>(&self.file, self.degree, first)
    }

    /// Gives `key` another value: in place, in the leaf that holds the key,
    /// which is then written, the one record that is. A key that is not in
    /// the index is reported as not found and nothing changes; no key is ever
    /// put in.
    pub fn update(&mut self, key: K, value: V) -> (r: Result<(), Error>)
        requires
            old(self).inv(),
        ensures
            final(self).inv(),
            final(self).degree == old(self).degree,
            final(self).name == old(self).name,
            final(self).is_open == old(self).is_open,
            !old(self).is_open ==> r == Err::<(), Error>(Error::NotInitialized) && *final(self)
                == *old(self),
            old(self).wf() ==> {
                if old(self)@.contains_key(key) {
                    &&& r is Ok
                    &&& final(self).wf()
                    &&& final(self)@ == old(self)@.insert(key, value)
                    &&& final(self).height == old(self).height
                    &&& final(self).file.pages@.len() == old(self).file.pages@.len()
                    &&& heap::<K, V>(final(self).file, old(self).degree as nat) == old(
                        self,
                    ).file_set(key, value)
                    &&& final(self).file.journal@ == old(self).file.journal@.push(
                        old(self).leaf_for(key),
                    )
                    &&& final(self).exactly_written(*old(self))
                    &&& old(self).exact() ==> final(self).exact()
                    &&& final(self).root_written_last(*old(self))
                } else {
                    r == Err::<(), Error>(Error::NotFound) && *final(self) == *old(self)
                }
            },
    {
        if !self.is_open {
            return Err(Error::NotInitialized);
        }
        let ghost before = *self;
        let ghost m = heap::<K, V>(self.file, self.degree as nat);
        let ghost h = self.height as nat;
        let ghost whole = contents(m, 0, h).insert(key, value);
        let degree = self.degree;
        let height = self.height;
        match update_in(&mut self.file, degree, 0, height, key, value, Ghost(root_slot(h))) {
            Err(e) => Err(e),
            Ok(()) => {
                let ghost m2 = heap::<K, V>(self.file, self.degree as nat);
                proof {
                    if before.wf() {
                        lemma_exact_written::<K, V>(before.file, self.file, degree as nat);
                        lemma_put_top(
                            m,
                            m2,
                            degree as nat,
                            root_slot(h),
                            m2[0],
                            (degree - 1) as nat,
                            whole,
                        );
                        assert(m2.insert(0, m2[0]) =~= m2);
                    }
                }
                match Node::<K, V>::read(&self.file, 0, degree) {
                    Ok(root) => {
                        self.root = root;
                        Ok(())
                    },
                    Err(e) => Err(e),
                }
            },
        }
    }

    /// Takes `key` out of the index.
    ///
    /// The leaf that holds the key gives the pair up. A leaf other than the
    /// root that is left with fewer keys than half the degree, rounded down,
    /// is set right with the help of a neighbour: the two are made one leaf
    /// where that fits a page, and share out what they hold where it does
    /// not. The node above loses or changes a separator accordingly, and an
    /// internal node that is left without a key is set right in the same
    /// way. A root that is left with one child and no key gives way to the
    /// child, which is written at offset zero: the tree is one level lower.
    /// Pages that are no longer used stay in the file.
    ///
    /// A key that is not in the index is reported as not found and nothing
    /// changes.
    pub fn delete(&mut self, key: K) -> (r: Result<(), Error>)
        requires
            old(self).inv(),
        ensures
            final(self).inv(),
            final(self).degree == old(self).degree,
            final(self).name == old(self).name,
            final(self).is_open == old(self).is_open,
            !old(self).is_open ==> r == Err::<(), Error>(Error::NotInitialized) && *final(self)
                == *old(self),
            old(self).wf() ==> {
                &&& r == old(self).delete_result(key)
                &&& r is Ok ==> Self::taken(*old(self), *final(self), key)
                &&& r is Err ==> *final(self) == *old(self)
            },
    {
        if !self.is_open {
            return Err(Error::NotInitialized);
        }
        let ghost before = *self;
        let ghost m = heap::<K, V>(self.file, self.degree as nat);
        let ghost h = self.height as nat;
        let ghost whole = contents(m, 0, h).remove(key);
        let degree = self.degree;
        let height = self.height;
        match remove_from::<K, V>(
            &mut self.file,
            degree,
            0,
            height,
            key,
            Ghost(root_slot(h)),
        ) {
            Err(e) => Err(e),
            Ok(None) => {
                let ghost m2 = heap::<K, V>(self.file, self.degree as nat);
                proof {
                    if before.wf() {
                        lemma_exact_written::<K, V>(before.file, self.file, degree as nat);
                        lemma_put_top(
                            m,
                            m2,
                            degree as nat,
                            root_slot(h),
                            m2[0],
                            (degree - 1) as nat,
                            whole,
                        );
                        assert(m2.insert(0, m2[0]) =~= m2);
                    }
                }
                match Node::<K, V>::read(&self.file, 0, degree) {
                    Ok(root) => {
                        self.root = root;
                        Ok(())
                    },
                    Err(e) => Err(e),
                }
            },
            Ok(Some(under)) => {
                let ghost m2 = heap::<K, V>(self.file, self.degree as nat);
                let ghost file2 = self.file;
                proof {
                    if before.wf() {
                        lemma_took_top(
                            m,
                            m2,
                            degree as nat,
                            root_slot(h),
                            under@,
                            (degree - 1) as nat,
                            whole,
                        );
                    }
                }
                if under.children.len() != 1 || under.keys.len() != 0 || height == 0 {
                    return Err(Error::Encoding);
                }
                proof {
                    if before.wf() {
                        lemma_collapse(m, m2, degree as nat, h, under@, whole);
                    }
                }
                let mut top = match Node::<K, V>::read(&self.file, under.children[0], degree) {
                    Ok(top) => top,
                    Err(e) => {
                        return Err(e);
                    },
                };
                top.set_offset(0);
                top.set_parent_offset(0);
                top.set_root();
                top.set_dirty();
                proof {
                    if before.wf() {
                        assert(top@ == moved_top(m2[under.children@[0]], 0, 0));
                        assert(node_at::<K, V>(file2, degree as nat, 0) is Some);
                        lemma_node_encoding_parts::<K, V>(top@, degree as nat);
                        assert(top.writable(self.file));
                        assert(placeable(top, self.file));
                    }
                }
                match place_node(&mut self.file, &mut top) {
                    Ok(()) => {},
                    Err(e) => {
                        return Err(e);
                    },
                }
                proof {
                    if before.wf() {
                        lemma_exact_written::<K, V>(before.file, self.file, degree as nat);
                        assert(heap::<K, V>(self.file, degree as nat) == relocated(
                            m2,
                            under.children@[0],
                            0,
                            0,
                        ));
                        assert(top@.children == m2[under.children@[0]].children);
                        assert(self.file.journal@ =~= before.file.journal@
                            + before.writes_without(key));
                    }
                }
                self.root = top;
                self.height = height - 1;
                Ok(())
            },
        }
    }

    /// Puts `key` with `value` into the index.
    ///
    /// The pair goes into the leaf that the key belongs to. A node that is
    /// then overfull is divided and hands its separator to the node above;
    /// where the root is divided the tree grows by a level. Every node that
    /// has changed is written, after the nodes below it and the root last.
    ///
    /// Where the leaf has room, the leaf with the pair in it is the one record
    /// that changes. A full leaf is divided into two new records at the end
    /// of the file, the right half in the first and the left half, which is
    /// linked to it, in the second. The node above names the two in place of
    /// the leaf, and the leaf before the left half is linked to it: two
    /// choices made here, for a leaf that moves has to be found along the
    /// leaves as before. The record of the divided leaf is no longer used:
    /// turning it into the node above its halves, as is done with the root,
    /// would put these two leaves one level deeper than the others. An
    /// internal node below the root is divided in place, its right half going
    /// to one new record. The root is divided into two new records, and a
    /// new root takes its place at offset zero: it has one key, the key at
    /// the middle index of the overfull root, with the left half in the last
    /// record and the right half in the one before it.
    ///
    /// Nothing changes where the insertion is refused: on a tree that is not
    /// open, on a file that has no room for the records that may be needed,
    /// two for a root that is a leaf and else one for each level and three
    /// more, and for a key that is in the index already.
    pub fn insert(&mut self, key: K, value: V) -> (r: Result<(), Error>)
        requires
            old(self).inv(),
        ensures
            final(self).inv(),
            final(self).degree == old(self).degree,
            final(self).name == old(self).name,
            final(self).is_open == old(self).is_open,
            !old(self).is_open ==> r == Err::<(), Error>(Error::NotInitialized) && *final(self)
                == *old(self),
            old(self).wf() ==> {
                &&& r == old(self).insert_result(key)
                &&& r is Ok ==> Self::put(*old(self), *final(self), key, value)
                &&& r is Err ==> *final(self) == *old(self)
            },
    {
        if !self.is_open {
            return Err(Error::NotInitialized);
        }
        let needed = if self.height == 0 {
            2u64
        } else {
            match (self.height as u64).checked_add(3) {
                Some(needed) => needed,
                None => {
                    proof {
                        let sum = self.file.pages@.len() + self.height + 3;
                        let size = self.file.page_size as int;
                        assert(sum * size > u64::MAX) by (nonlinear_arith)
                            requires
                                sum > u64::MAX,
                                size >= 1,
                        ;
                    }
                    return Err(Error::Io);
                },
            }
        };
        if !self.file.can_grow_by(needed) {
            return Err(Error::Io);
        }
        if self.height >= self.file.page_count() {
            return Err(Error::Encoding);
        }
        let ghost before = *self;
        let ghost m = heap::<K, V>(self.file, self.degree as nat);
        let ghost h = self.height as nat;
        let ghost whole = contents(m, 0, h).insert(key, value);
        let degree = self.degree;
        let height = self.height;
        let ghost left = left_place(before.file.end(), before.file.page_size as int);
        let ghost b = with_leaf_moved(m, degree as nat, 0, h, key, left);
        proof {
            lemma_room::<K, V>(before.file, before.file, before.records_needed(), h + 1);
        }
        let taken = match insert_into(
            &mut self.file,
            degree,
            0,
            height,
            key,
            value,
            Ghost(root_slot(h)),
        ) {
            Ok(taken) => taken,
            Err(e) => {
                return Err(e);
            },
        };
        match taken.over {
            None => {
                let ghost m2 = heap::<K, V>(self.file, self.degree as nat);
                proof {
                    if before.wf() {
                        lemma_exact_written::<K, V>(before.file, self.file, degree as nat);
                        lemma_put_top(
                            b,
                            m2,
                            degree as nat,
                            root_slot(h),
                            m2[0],
                            (degree - 1) as nat,
                            whole,
                        );
                        assert(m2.insert(0, m2[0]) =~= m2);
                        lemma_added_below_bound(m, degree as nat, 0, h, key);
                    }
                }
                match Node::<K, V>::read(&self.file, 0, degree) {
                    Ok(root) => {
                        self.root = root;
                        Ok(())
                    },
                    Err(e) => Err(e),
                }
            },
            Some(over) => {
                proof {
                    if before.wf() {
                        lemma_added_below_bound(m, degree as nat, 0, h, key);
                        lemma_room::<K, V>(before.file, self.file, before.records_needed(), 2);
                        lemma_full_path_leaf(m, degree as nat, 0, h, key);
                        let count = self.file.pages@.len() as int;
                        let size = self.file.page_size as int;
                        assert((count + 1) * size == count * size + size) by (nonlinear_arith);
                        assert(self.file.end() == count * size);
                        assert(count * size + size <= u64::MAX);
                        assert(count * size >= 0) by (nonlinear_arith)
                            requires
                                count >= 0,
                                size >= 0,
                        ;
                    }
                }
                let ghost top = over@;
                let ghost mid = self.file.journal@;
                match split_root(&mut self.file, degree, over, Ghost(b), Ghost(h), Ghost(whole)) {
                    Ok(root) => {
                        proof {
                            if before.wf() {
                                let count = before.file.pages@.len();
                                let size = before.file.page_size as int;
                                let below = writes(
                                    m,
                                    degree as nat,
                                    0,
                                    h,
                                    key,
                                    value,
                                    before.file.end(),
                                    size,
                                );
                                let last = growing_writes(
                                    top,
                                    before.record_offset(
                                        (count + before.added_below(key) + 1) as nat,
                                    ),
                                    before.record_offset((count + before.added_below(key)) as nat),
                                    (degree / 2) as int,
                                );
                                assert(mid == before.file.journal@ + below);
                                assert(self.file.journal@ == mid + last);
                                lemma_exact_written::<K, V>(
                                    before.file,
                                    self.file,
                                    degree as nat,
                                );
                                assert(self.file.journal@ =~= before.file.journal@ + (below
                                    + last));
                            }
                        }
                        self.root = root;
                        self.height = height + 1;
                        Ok(())
                    },
                    Err(e) => Err(e),
                }
            },
        }
    }
}

} // verus!
