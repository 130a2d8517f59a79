//! The page of a node: encoding, decoding, and reading and writing in the
//! node file.

use vstd::prelude::*;
use crate::array::{
    array_decoding, array_encoding, array_from_bytes, array_to_bytes, lemma_array_decoding_len,
    lemma_array_decoding_within, lemma_array_encoding_len, lemma_offsets_decoding_within, padded,
    zeros,
};
use crate::bytes_ext::{
    append_bytes, append_zeros, be64, copy_range, from_be64, lemma_be64_round_trip,
    u64_from_be_bytes, u64_to_be_bytes,
};
use crate::error::Error;
use crate::fm::nodes::NodeFile;
use crate::index::Index;
use crate::node_type::{NodeType, NODE_TYPE_SIZE};
use crate::nodes::layout::{
    children_start, layout, layout_fits, lemma_layout_order, node_size, raw_size, values_start,
    HEADER_SIZE, OFFSET_AT, PARENT_AT, ROOT_FLAG_AT, USED_AT,
};
use crate::nodes::{Node, NodeView};
use crate::value::Value;

verus! {

/// The byte that stands for the root flag.
pub open spec fn flag_byte(flag: bool) -> u8 {
    if flag {
        1u8
    } else {
        0u8
    }
}

/// What stands before the keys: the kind, the root flag and three bytes of
/// padding, the parent's offset, the node's own offset, the number of keys.
pub open spec fn header_encoding<K, V>(n: NodeView<K, V>) -> Seq<u8> {
    n.node_type.encoding() + seq![flag_byte(n.is_root), 0u8, 0u8, 0u8] + be64(n.parent_offset)
        + be64(n.offset) + be64(n.keys.len() as u64)
}

/// The page of a node: the header, the key slots, the value slots, the child
/// slots, and zeros up to the end of the last page.
#[verifier::opaque]
pub open spec fn node_encoding<K: Index, V: Value>(n: NodeView<K, V>, degree: nat) -> Seq<u8> {
    header_encoding(n) + array_encoding(n.keys, (degree - 1) as nat) + array_encoding(
        n.values,
        (degree - 1) as nat,
    ) + array_encoding(n.children, degree) + zeros(
        (node_size::<K, V>(degree) - raw_size::<K, V>(degree)) as nat,
    )
}

/// The node that a page stands for. There is none where the length is not
/// that of a page of this degree, the kind's tag is unknown, more keys are
/// claimed than a node can hold, or a key, value or child in use does not
/// decode. A leaf comes back without children, an internal node without
/// values and with one child more than keys.
#[verifier::opaque]
pub open spec fn node_decoding<K: Index, V: Value>(bytes: Seq<u8>, degree: nat) -> Option<
    NodeView<K, V>,
> {
    if bytes.len() != node_size::<K, V>(degree) {
        None
    } else {
        match NodeType::decoding(bytes.subrange(0, NODE_TYPE_SIZE as int)) {
            None => None,
            Some(node_type) => {
                let used = from_be64(bytes.subrange(USED_AT as int, USED_AT + 8));
                let keys = array_decoding::<K>(
                    bytes.subrange(HEADER_SIZE as int, bytes.len() as int),
                    used as nat,
                );
                let values = array_decoding::<V>(
                    bytes.subrange(values_start::<K>(degree), bytes.len() as int),
                    used as nat,
                );
                let children = array_decoding::<u64>(
                    bytes.subrange(children_start::<K, V>(degree), bytes.len() as int),
                    (used + 1) as nat,
                );
                if used + 1 > degree {
                    None
                } else if keys is None {
                    None
                } else if node_type is Leaf && values is None {
                    None
                } else if node_type is Internal && children is None {
                    None
                } else {
                    Some(
                        NodeView {
                            node_type,
                            is_root: bytes[ROOT_FLAG_AT as int] != 0,
                            parent_offset: from_be64(
                                bytes.subrange(PARENT_AT as int, PARENT_AT + 8),
                            ),
                            offset: from_be64(bytes.subrange(OFFSET_AT as int, OFFSET_AT + 8)),
                            keys: keys->Some_0,
                            values: if node_type is Leaf {
                                values->Some_0
                            } else {
                                Seq::empty()
                            },
                            children: if node_type is Internal {
                                children->Some_0
                            } else {
                                Seq::empty()
                            },
                        },
                    )
                }
            },
        }
    }
}

impl<K, V> NodeView<K, V> {
    /// The node as its page gives it back: the kind in normal form, and the
    /// children of an internal node filled up with zeros to one more than keys.
    pub open spec fn normal(self) -> NodeView<K, V> {
        NodeView {
            node_type: self.node_type.normal(),
            children: if self.is_leaf() {
                self.children
            } else {
                padded(self.children, self.keys.len() + 1)
            },
            ..self
        }
    }
}

/// The header is 44 bytes wide.
pub proof fn lemma_header_len<K, V>(n: NodeView<K, V>)
    ensures
        header_encoding(n).len() == HEADER_SIZE,
{
    n.node_type.lemma_round_trip();
    lemma_be64_round_trip(n.parent_offset);
    lemma_be64_round_trip(n.offset);
    lemma_be64_round_trip(n.keys.len() as u64);
}

/// Where the parts of an encoded node stand.
pub proof fn lemma_node_encoding_parts<K: Index, V: Value>(n: NodeView<K, V>, degree: nat)
    requires
        degree >= 1,
    ensures
        ({
            let e = node_encoding(n, degree);
            let vs = values_start::<K>(degree);
            let cs = children_start::<K, V>(degree);
            let raw = raw_size::<K, V>(degree);
            &&& e.len() == node_size::<K, V>(degree)
            &&& e.subrange(0, NODE_TYPE_SIZE as int) == n.node_type.encoding()
            &&& e[ROOT_FLAG_AT as int] == flag_byte(n.is_root)
            &&& e.subrange(PARENT_AT as int, PARENT_AT + 8) == be64(n.parent_offset)
            &&& e.subrange(OFFSET_AT as int, OFFSET_AT + 8) == be64(n.offset)
            &&& e.subrange(USED_AT as int, USED_AT + 8) == be64(n.keys.len() as u64)
            &&& e.subrange(HEADER_SIZE as int, vs) == array_encoding(n.keys, (degree - 1) as nat)
            &&& e.subrange(vs, cs) == array_encoding(n.values, (degree - 1) as nat)
            &&& e.subrange(cs, raw) == array_encoding(n.children, degree)
        }),
{
    reveal(node_encoding);
    reveal(node_decoding);
    let e = node_encoding(n, degree);
    let h = header_encoding(n);
    let ke = array_encoding(n.keys, (degree - 1) as nat);
    let ve = array_encoding(n.values, (degree - 1) as nat);
    let ce = array_encoding(n.children, degree);
    lemma_layout_order::<K, V>(degree);
    lemma_header_len(n);
    n.node_type.lemma_round_trip();
    lemma_be64_round_trip(n.parent_offset);
    lemma_be64_round_trip(n.offset);
    lemma_be64_round_trip(n.keys.len() as u64);
    lemma_array_encoding_len(n.keys, (degree - 1) as nat);
    lemma_array_encoding_len(n.values, (degree - 1) as nat);
    lemma_array_encoding_len(n.children, degree);
    let vs = values_start::<K>(degree);
    let cs = children_start::<K, V>(degree);
    let raw = raw_size::<K, V>(degree);
    assert(h.len() == 44);
    assert(ke.len() == vs - 44);
    assert(ve.len() == cs - vs);
    assert(ce.len() == raw - cs);
    assert(e.len() == node_size::<K, V>(degree));
    assert(e.subrange(0, NODE_TYPE_SIZE as int) =~= n.node_type.encoding());
    assert(e[ROOT_FLAG_AT as int] == h[ROOT_FLAG_AT as int]);
    assert(e.subrange(PARENT_AT as int, PARENT_AT + 8) =~= be64(n.parent_offset));
    assert(e.subrange(OFFSET_AT as int, OFFSET_AT + 8) =~= be64(n.offset));
    assert(e.subrange(USED_AT as int, USED_AT + 8) =~= be64(n.keys.len() as u64));
    assert(e.subrange(HEADER_SIZE as int, vs) =~= ke);
    assert(e.subrange(vs, cs) =~= ve);
    assert(e.subrange(cs, raw) =~= ce);
}

/// A page decodes to the node it was made from, in normal form.
pub proof fn lemma_node_decoding_of_encoding<K: Index, V: Value>(n: NodeView<K, V>, degree: nat)
    requires
        layout_fits::<K, V>(degree),
        n.fits(degree),
    ensures
        node_decoding::<K, V>(node_encoding(n, degree), degree) == Some(n.normal()),
{
    reveal(node_encoding);
    reveal(node_decoding);
    let e = node_encoding(n, degree);
    let vs = values_start::<K>(degree);
    let cs = children_start::<K, V>(degree);
    let used = n.keys.len();
    lemma_layout_order::<K, V>(degree);
    lemma_node_encoding_parts(n, degree);
    n.node_type.lemma_round_trip();
    lemma_be64_round_trip(n.parent_offset);
    lemma_be64_round_trip(n.offset);
    lemma_be64_round_trip(used as u64);
    assert(from_be64(e.subrange(USED_AT as int, USED_AT + 8)) == used);
    lemma_array_decoding_within::<K>(e, HEADER_SIZE as int, n.keys, (degree - 1) as nat, used);
    assert(n.keys.subrange(0, used as int) =~= n.keys);
    if n.is_leaf() {
        lemma_array_decoding_within::<V>(e, vs, n.values, (degree - 1) as nat, used);
        assert(n.values.subrange(0, used as int) =~= n.values);
        assert(n.children =~= Seq::<u64>::empty());
    } else {
        lemma_offsets_decoding_within(e, cs, n.children, degree, used + 1);
        assert(n.values =~= Seq::<V>::empty());
    }
    let d = node_decoding::<K, V>(e, degree);
    assert(d is Some);
    assert(d->Some_0.keys == n.normal().keys);
    assert(d->Some_0.values == n.normal().values);
    assert(d->Some_0.children == n.normal().children);
}

/// Filling an array of offsets up with zeros does not change its slots.
pub proof fn lemma_padded_encoding(offsets: Seq<u64>, count: nat, capacity: nat)
    requires
        offsets.len() <= count,
    ensures
        array_encoding(padded(offsets, count), capacity) == array_encoding(offsets, capacity),
    decreases capacity,
{
    if capacity > 0 {
        lemma_padded_encoding(offsets, count, (capacity - 1) as nat);
        let i = capacity - 1;
        if i < offsets.len() {
        } else if i < count {
            assert(padded(offsets, count)[i] == 0u64);
            assert(be64(0u64) =~= zeros(8)) by {
                assert((0u64 >> 56) as u8 == 0u8 && ((0u64 >> 48) & 0xff) as u8 == 0u8 && ((0u64
                    >> 40) & 0xff) as u8 == 0u8 && ((0u64 >> 32) & 0xff) as u8 == 0u8 && ((0u64
                    >> 24) & 0xff) as u8 == 0u8 && ((0u64 >> 16) & 0xff) as u8 == 0u8 && ((0u64
                    >> 8) & 0xff) as u8 == 0u8 && (0u64 & 0xff) as u8 == 0u8) by (bit_vector);
            }
        }
    }
}

/// Decoding the page of a node and encoding the result gives the same page
/// again: whatever the keys, the values and the kind of the node.
pub proof fn lemma_node_round_trip<K: Index, V: Value>(n: NodeView<K, V>, degree: nat)
    requires
        layout_fits::<K, V>(degree),
        n.fits(degree),
    ensures
        node_decoding::<K, V>(node_encoding(n, degree), degree) matches Some(back)
            && node_encoding(back, degree) == node_encoding(n, degree),
        n.canonical(degree) ==> node_decoding::<K, V>(node_encoding(n, degree), degree) == Some(n),
{
    reveal(node_encoding);
    reveal(node_decoding);
    lemma_node_decoding_of_encoding(n, degree);
    n.node_type.lemma_round_trip();
    if !n.is_leaf() {
        lemma_padded_encoding(n.children, n.keys.len() + 1, degree);
        if n.canonical(degree) {
            assert(padded(n.children, n.keys.len() + 1) =~= n.children);
        }
    }
    assert(header_encoding(n.normal()) == header_encoding(n));
}

/// What a page decodes to is a node in the form that pages give back.
pub proof fn lemma_decoded_canonical<K: Index, V: Value>(bytes: Seq<u8>, degree: nat)
    ensures
        node_decoding::<K, V>(bytes, degree) matches Some(n) ==> n.canonical(degree),
{
    reveal(node_encoding);
    reveal(node_decoding);
    let d = node_decoding::<K, V>(bytes, degree);
    if d is Some {
        let used = from_be64(bytes.subrange(USED_AT as int, USED_AT + 8));
        lemma_array_decoding_len::<K>(
            bytes.subrange(HEADER_SIZE as int, bytes.len() as int),
            used as nat,
        );
        lemma_array_decoding_len::<V>(
            bytes.subrange(values_start::<K>(degree), bytes.len() as int),
            used as nat,
        );
        lemma_array_decoding_len::<u64>(
            bytes.subrange(children_start::<K, V>(degree), bytes.len() as int),
            (used + 1) as nat,
        );
    }
}

impl<K: Index, V: Value> Node<K, V> {
    /// Whether the node can be written to a page: nodes of its degree can be
    /// laid out and what it holds is within capacity.
    pub open spec fn fits(&self) -> bool {
        &&& layout_fits::<K, V>(self.degree as nat)
        &&& self@.fits(self.degree as nat)
    }

    /// The bytes that the node takes on file.
    pub fn get_byte_size(&self) -> (n: usize)
        requires
            layout_fits::<K, V>(self.degree as nat),
        ensures
            n == node_size::<K, V>(self.degree as nat),
    {
        match layout::<K, V>(self.degree) {
            Some(l) => l.node_size,
            None => 0,
        }
    }

    /// Encodes the node as one page.
    pub fn to_bytes(&self) -> (bytes: Vec<u8>)
        requires
            self.fits(),
        ensures
            bytes@ == node_encoding(self@, self.degree as nat),
    {
        let size = self.get_byte_size();
        let l = layout::<K, V>(self.degree);
        proof {
            reveal(node_encoding);
            lemma_layout_order::<K, V>(self.degree as nat);
        }
        let raw = match l {
            Some(l) => l.raw_size,
            None => size,
        };
        let mut bytes: Vec<u8> = self.node_type.to_bytes();
        bytes.push(if self.is_root { 1u8 } else { 0u8 });
        bytes.push(0u8);
        bytes.push(0u8);
        bytes.push(0u8);
        let parent = u64_to_be_bytes(self.parent_offset);
        append_bytes(&mut bytes, &parent);
        let own = u64_to_be_bytes(self.offset);
        append_bytes(&mut bytes, &own);
        let used = u64_to_be_bytes(self.keys.len() as u64);
        append_bytes(&mut bytes, &used);
        assert(bytes@ =~= header_encoding(self@));
        array_to_bytes(&self.keys, self.degree - 1, &mut bytes);
        array_to_bytes(&self.values, self.degree - 1, &mut bytes);
        array_to_bytes(&self.children, self.degree, &mut bytes);
        append_zeros(&mut bytes, size - raw);
        bytes
    }

    /// Decodes a page of a tree of the given degree. The node comes back clean.
    pub fn new_from_bytes(bytes: Vec<u8>, degree: usize) -> (r: Result<Self, Error>)
        ensures
            match node_decoding::<K, V>(bytes@, degree as nat) {
                Some(n) => r is Ok && r->Ok_0@ == n && r->Ok_0.degree == degree
                    && !r->Ok_0.is_dirty,
                None => r is Err && r->Err_0 == Error::Encoding,
            },
    {
        proof {
            reveal(node_decoding);
        }
        let l = match layout::<K, V>(degree) {
            Some(l) => l,
            None => {
                return Err(Error::Encoding);
            },
        };
        if bytes.len() != l.node_size {
            return Err(Error::Encoding);
        }
        proof {
            lemma_layout_order::<K, V>(degree as nat);
        }
        let block = copy_range(&bytes, 0, NODE_TYPE_SIZE);
        let node_type = match NodeType::new_from_bytes(block) {
            Ok(t) => t,
            Err(e) => {
                return Err(e);
            },
        };
        let is_root = bytes[ROOT_FLAG_AT] != 0;
        let parent_offset = u64_from_be_bytes(&bytes, PARENT_AT);
        let offset = u64_from_be_bytes(&bytes, OFFSET_AT);
        let used64 = u64_from_be_bytes(&bytes, USED_AT);
        if used64 >= degree as u64 {
            return Err(Error::Encoding);
        }
        let used = used64 as usize;
        assert(used * K::byte_size() <= (degree - 1) * K::byte_size()) by (nonlinear_arith)
            requires
                used <= degree - 1,
        ;
        assert(used * V::byte_size() <= (degree - 1) * V::byte_size()) by (nonlinear_arith)
            requires
                used <= degree - 1,
        ;
        let keys = match array_from_bytes::<K>(&bytes, HEADER_SIZE, used) {
            Ok(keys) => keys,
            Err(e) => {
                return Err(e);
            },
        };
        let mut values: Vec<V> = Vec::new();
        let mut children: Vec<u64> = Vec::new();
        if node_type.is_leaf() {
            values = match array_from_bytes::<V>(&bytes, l.values_start, used) {
                Ok(values) => values,
                Err(e) => {
                    return Err(e);
                },
            };
        } else {
            children = match array_from_bytes::<u64>(&bytes, l.children_start, used + 1) {
                Ok(children) => children,
                Err(e) => {
                    return Err(e);
                },
            };
        }
        let node = Node {
            node_type,
            is_root,
            is_dirty: false,
            degree,
            parent_offset,
            offset,
            keys,
            values,
            children,
        };
        assert(node@.values =~= node_decoding::<K, V>(bytes@, degree as nat)->Some_0.values);
        assert(node@.children =~= node_decoding::<K, V>(bytes@, degree as nat)->Some_0.children);
        Ok(node)
    }

    /// Replaces the node by the one that `bytes` stands for, for a tree of the
    /// node's own degree; where it stands for none the node stays and the
    /// error says so.
    pub fn from_bytes(&mut self, bytes: Vec<u8>) -> (r: Result<(), Error>)
        ensures
            match node_decoding::<K, V>(bytes@, old(self).degree as nat) {
                Some(n) => r is Ok && final(self)@ == n && final(self).degree == old(self).degree
                    && !final(self).is_dirty,
                None => r == Err::<(), Error>(Error::Encoding) && *final(self) == *old(self),
            },
    {
        match Node::new_from_bytes(bytes, self.degree) {
            Ok(node) => {
                *self = node;
                Ok(())
            },
            Err(e) => Err(e),
        }
    }
}

/// The nodes of a tree as mathematical values, each under its offset.
pub type Heap<K, V> = Map<u64, NodeView<K, V>>;

/// The node that the record at `offset` stands for, if one starts there and
/// decodes. The offset under which a node is found counts as the node's own:
/// the file is the authority on where a node is.
pub open spec fn node_at<K: Index, V: Value>(file: NodeFile, degree: nat, offset: u64) -> Option<
    NodeView<K, V>,
> {
    match file.page_at(offset) {
        Some(page) => match node_decoding::<K, V>(page, degree) {
            Some(n) => Some(NodeView { offset, ..n }),
            None => None,
        },
        None => None,
    }
}

/// The nodes that a file holds for a tree of the given degree.
pub open spec fn heap<K: Index, V: Value>(file: NodeFile, degree: nat) -> Heap<K, V> {
    Map::new(
        |offset: u64| node_at::<K, V>(file, degree, offset) is Some,
        |offset: u64| node_at::<K, V>(file, degree, offset)->Some_0,
    )
}

impl<K: Index, V: Value> Node<K, V> {
    /// Whether the node can be written to `file`: it fits a page, the file's
    /// records have the size of its page, and its offset is the start of a
    /// record or the end of a file that can still grow.
    pub open spec fn writable(&self, file: NodeFile) -> bool {
        &&& self.fits()
        &&& file.can_write(self.offset, node_encoding(self@, self.degree as nat))
    }

    /// Reads the node at `offset`: one record, decoded, with `offset` as the
    /// node's own offset. A record that is not there or does not decode is a
    /// damaged file.
    pub fn read(file: &NodeFile, offset: u64, degree: usize) -> (r: Result<Self, Error>)
        requires
            file.wf(),
        ensures
            match node_at::<K, V>(*file, degree as nat, offset) {
                Some(n) => r is Ok && r->Ok_0@ == n && r->Ok_0.degree == degree
                    && !r->Ok_0.is_dirty && n.canonical(degree as nat),
                None => r is Err && r->Err_0 == Error::Encoding,
            },
    {
        let page = match file.read(offset) {
            Ok(page) => page,
            Err(e) => {
                return Err(e);
            },
        };
        proof {
            lemma_decoded_canonical::<K, V>(page@, degree as nat);
        }
        match Node::new_from_bytes(page, degree) {
            Ok(mut node) => {
                node.offset = offset;
                Ok(node)
            },
            Err(e) => Err(e),
        }
    }

    /// Whether a page has room for what the node holds.
    pub fn check_fits(&self) -> (r: bool)
        ensures
            r == self.fits(),
    {
        if layout::<K, V>(self.degree).is_none() {
            return false;
        }
        if self.keys.len() >= self.degree {
            return false;
        }
        if self.node_type.is_leaf() {
            self.values.len() == self.keys.len() && self.children.len() == 0
        } else {
            self.values.len() == 0 && self.children.len() <= self.keys.len() + 1
        }
    }

    /// Brings the page on file up to date. A clean node is left alone. A dirty
    /// one is encoded and written at its own offset, and is then clean. Where
    /// the node cannot be written, neither it nor the file changes: a node
    /// that does not fit a page is taken for damage, as is an offset at which
    /// the file takes no record.
    pub fn write(&mut self, file: &mut NodeFile) -> (r: Result<u64, Error>)
        requires
            old(file).wf(),
        ensures
            final(file).wf(),
            final(file).page_size == old(file).page_size,
            final(file).pages@.len() >= old(file).pages@.len(),
            !old(self).is_dirty ==> {
                &&& r == Ok::<u64, Error>(old(self).offset)
                &&& *final(self) == *old(self)
                &&& *final(file) == *old(file)
            },
            old(self).is_dirty && old(self).writable(*old(file)) ==> {
                &&& r == Ok::<u64, Error>(old(self).offset)
                &&& *final(self) == (Node { is_dirty: false, ..*old(self) })
                &&& final(file).journal@ == old(file).journal@.push(old(self).offset)
                &&& final(file).pages@.len() == old(file).pages@.len() + if old(file).index_of(
                    old(self).offset,
                ) < old(file).pages@.len() {
                    0int
                } else {
                    1int
                }
                &&& final(file).page_at(old(self).offset) == Some(
                    node_encoding(old(self)@, old(self).degree as nat),
                )
                &&& forall|other: u64|
                    other != old(self).offset ==> #[trigger] final(file).page_at(other) == old(
                        file,
                    ).page_at(other)
            },
            (old(self).is_dirty && old(self).writable(*old(file)) ==> old(self)@.canonical(
                old(self).degree as nat,
            ) && (old(self).is_root ==> old(self).offset == 0 || marked_root::<K, V>(
                *old(file),
                old(self).degree as nat,
                old(self).offset,
            ))) ==> exact_kept::<K, V>(
                *old(file),
                *final(file),
                old(self).degree as nat,
            ),
            old(self).is_dirty && !old(self).writable(*old(file)) ==> {
                &&& r is Err
                &&& r->Err_0 == if old(self).fits() {
                    old(file).write_error(
                        old(self).offset,
                        node_encoding(old(self)@, old(self).degree as nat),
                    )
                } else {
                    Error::Encoding
                }
                &&& *final(self) == *old(self)
                &&& *final(file) == *old(file)
            },
    {
        if !self.is_dirty {
            return Ok(self.offset);
        }
        if !self.check_fits() {
            return Err(Error::Encoding);
        }
        let bytes = self.to_bytes();
        let ghost before = *file;
        match file.write(self.offset, bytes) {
            Ok(()) => {
                proof {
                    if self@.canonical(self.degree as nat) && old(self).writable(before) && (
                    self.is_root ==> self.offset == 0 || marked_root::<K, V>(
                        before,
                        self.degree as nat,
                        self.offset,
                    )) {
                        lemma_write_exact::<K, V>(before, *file, self@, self.degree as nat);
                    }
                }
                self.is_dirty = false;
                Ok(self.offset)
            },
            Err(e) => Err(e),
        }
    }
}

/// Whether the record at `offset` holds exactly the encoding of the node that
/// it stands for: the fields in their places and zeros in every byte that no
/// field takes.
pub open spec fn exact_at<K: Index, V: Value>(file: NodeFile, degree: nat, offset: u64) -> bool {
    &&& node_at::<K, V>(file, degree, offset) is Some
    &&& file.page_at(offset) == Some(node_encoding(heap::<K, V>(file, degree)[offset], degree))
}

/// Whether every record that the journal names from its entry `from` on
/// holds exactly the encoding of the node that it stands for.
#[verifier::opaque]
pub open spec fn written_exact<K: Index, V: Value>(file: NodeFile, degree: nat, from: int) -> bool {
    forall|i: int|
        from <= i < file.journal@.len() ==> exact_at::<K, V>(
            file,
            degree,
            #[trigger] file.journal@[i],
        )
}

/// Whether every record of the file that stands for a node holds exactly the
/// encoding of that node.
#[verifier::opaque]
pub open spec fn all_exact<K: Index, V: Value>(file: NodeFile, degree: nat) -> bool {
    forall|offset: u64|
        #[trigger] node_at::<K, V>(file, degree, offset) is Some ==> exact_at::<K, V>(
            file,
            degree,
            offset,
        )
}

/// Whether the record at `offset` stands for a node that is marked as the
/// root.
pub open spec fn marked_root<K: Index, V: Value>(file: NodeFile, degree: nat, offset: u64) -> bool {
    node_at::<K, V>(file, degree, offset) is Some && heap::<K, V>(file, degree)[offset].is_root
}

/// Whether no record of the file but the one at offset zero stands for a
/// node that is marked as the root.
#[verifier::opaque]
pub open spec fn one_root<K: Index, V: Value>(file: NodeFile, degree: nat) -> bool {
    forall|offset: u64| #[trigger] marked_root::<K, V>(file, degree, offset) ==> offset == 0
}

/// Whether the writes that lead from the file `before` to the file `after`
/// were exact: every record that they wrote holds exactly the encoding of the
/// node that it stands for, and so does every record written before them
/// that did so in `before`; where every record of `before` is exact, every
/// record of `after` is; and no node but one at offset zero was written as
/// the root.
pub open spec fn exact_kept<K: Index, V: Value>(
    before: NodeFile,
    after: NodeFile,
    degree: nat,
) -> bool {
    &&& before.journal@.len() <= after.journal@.len()
    &&& forall|from: int|
        0 <= from <= before.journal@.len() && #[trigger] written_exact::<K, V>(
            before,
            degree,
            from,
        ) ==> written_exact::<K, V>(after, degree, from)
    &&& all_exact::<K, V>(before, degree) ==> all_exact::<K, V>(after, degree)
    &&& one_root::<K, V>(before, degree) ==> one_root::<K, V>(after, degree)
}

/// Writing a node in the form that pages give back is an exact write.
pub proof fn lemma_write_exact<K: Index, V: Value>(
    before: NodeFile,
    after: NodeFile,
    node: NodeView<K, V>,
    degree: nat,
)
    requires
        layout_fits::<K, V>(degree),
        node.canonical(degree),
        node.is_root ==> node.offset == 0 || marked_root::<K, V>(before, degree, node.offset),
        after.page_at(node.offset) == Some(node_encoding(node, degree)),
        forall|other: u64|
            other != node.offset ==> #[trigger] after.page_at(other) == before.page_at(other),
        after.journal@ == before.journal@.push(node.offset),
    ensures
        exact_kept::<K, V>(before, after, degree),
{
    lemma_heap_after_write(before, after, node, degree);
    if one_root::<K, V>(before, degree) {
        reveal(one_root);
        assert forall|o: u64| #[trigger] marked_root::<K, V>(after, degree, o) implies o == 0 by {
            if o != node.offset {
                assert(after.page_at(o) == before.page_at(o));
                assert(node_at::<K, V>(after, degree, o) == node_at::<K, V>(before, degree, o));
                assert(heap::<K, V>(after, degree)[o] == heap::<K, V>(before, degree)[o]);
                assert(marked_root::<K, V>(before, degree, o));
            } else {
                assert(heap::<K, V>(after, degree)[o] == node);
                if o != 0 {
                    assert(marked_root::<K, V>(before, degree, o));
                }
            }
        }
    }
    if all_exact::<K, V>(before, degree) {
        reveal(all_exact);
        assert forall|o: u64| #[trigger]
            node_at::<K, V>(after, degree, o) is Some implies exact_at::<K, V>(after, degree, o) by {
            if o != node.offset {
                assert(after.page_at(o) == before.page_at(o));
                assert(node_at::<K, V>(after, degree, o) == node_at::<K, V>(before, degree, o));
                assert(heap::<K, V>(after, degree)[o] == heap::<K, V>(before, degree)[o]);
            } else {
                assert(heap::<K, V>(after, degree).dom().contains(o));
                assert(heap::<K, V>(after, degree)[o] == node);
            }
        }
    }
    assert forall|from: int|
        0 <= from <= before.journal@.len() && #[trigger] written_exact::<K, V>(
            before,
            degree,
            from,
        ) implies written_exact::<K, V>(after, degree, from) by {
        reveal(written_exact);
        assert forall|i: int| from <= i < after.journal@.len() implies exact_at::<K, V>(
            after,
            degree,
            #[trigger] after.journal@[i],
        ) by {
            let o = after.journal@[i];
            if o != node.offset {
                assert(i < before.journal@.len());
                assert(before.journal@[i] == o);
                assert(exact_at::<K, V>(before, degree, o));
                assert(after.page_at(o) == before.page_at(o));
                assert(node_at::<K, V>(after, degree, o) == node_at::<K, V>(before, degree, o));
                assert(heap::<K, V>(after, degree)[o] == heap::<K, V>(before, degree)[o]);
            } else {
                assert(heap::<K, V>(after, degree).dom().contains(o));
                assert(heap::<K, V>(after, degree)[o] == node);
                assert(node_at::<K, V>(after, degree, o) is Some);
            }
        }
    }
}

/// After exact writes, every record that they wrote is exact.
pub proof fn lemma_exact_written<K: Index, V: Value>(
    before: NodeFile,
    after: NodeFile,
    degree: nat,
)
    requires
        exact_kept::<K, V>(before, after, degree),
    ensures
        written_exact::<K, V>(after, degree, before.journal@.len() as int),
{
    assert(written_exact::<K, V>(before, degree, before.journal@.len() as int)) by {
        reveal(written_exact);
    }
}

/// Two files with the same records are exact alike.
pub proof fn lemma_exact_of_records<K: Index, V: Value>(a: NodeFile, b: NodeFile, degree: nat)
    requires
        a.page_size == b.page_size,
        a.records() == b.records(),
        all_exact::<K, V>(a, degree),
        one_root::<K, V>(a, degree),
    ensures
        all_exact::<K, V>(b, degree),
        one_root::<K, V>(b, degree),
{
    reveal(all_exact);
    reveal(one_root);
    lemma_heap_of_records::<K, V>(a, b, degree);
    assert forall|o: u64| #[trigger]
        node_at::<K, V>(b, degree, o) is Some implies exact_at::<K, V>(b, degree, o) by {
        assert(a.page_at(o) == b.page_at(o));
        assert(node_at::<K, V>(a, degree, o) is Some);
    }
    assert forall|o: u64| #[trigger] marked_root::<K, V>(b, degree, o) implies o == 0 by {
        assert(a.page_at(o) == b.page_at(o));
        assert(marked_root::<K, V>(a, degree, o));
    }
}

/// Two files with the same records hold the same nodes.
pub proof fn lemma_heap_of_records<K: Index, V: Value>(a: NodeFile, b: NodeFile, degree: nat)
    requires
        a.page_size == b.page_size,
        a.records() == b.records(),
    ensures
        heap::<K, V>(a, degree) == heap::<K, V>(b, degree),
        forall|o: u64| #[trigger] a.page_at(o) == b.page_at(o),
{
    assert forall|o: u64| #[trigger] a.page_at(o) == b.page_at(o) by {
        assert(a.pages@.len() == a.records().len());
        assert(b.pages@.len() == b.records().len());
        if a.page_at(o) is Some {
            assert(a.records()[a.index_of(o)] == a.pages@[a.index_of(o)]@);
            assert(b.records()[b.index_of(o)] == b.pages@[b.index_of(o)]@);
        }
    }
    assert(heap::<K, V>(a, degree) =~= heap::<K, V>(b, degree));
}

/// Writing a node changes the nodes of the file at the node's offset only,
/// where the node now stands as it was written.
pub proof fn lemma_heap_after_write<K: Index, V: Value>(
    before: NodeFile,
    after: NodeFile,
    node: NodeView<K, V>,
    degree: nat,
)
    requires
        layout_fits::<K, V>(degree),
        node.canonical(degree),
        after.page_at(node.offset) == Some(node_encoding(node, degree)),
        forall|other: u64|
            other != node.offset ==> #[trigger] after.page_at(other) == before.page_at(other),
    ensures
        heap::<K, V>(after, degree) == heap::<K, V>(before, degree).insert(node.offset, node),
{
    lemma_node_round_trip(node, degree);
    let a = heap::<K, V>(after, degree);
    let b = heap::<K, V>(before, degree).insert(node.offset, node);
    assert forall|o: u64| a.dom().contains(o) <==> b.dom().contains(o) by {
        if o != node.offset {
            assert(after.page_at(o) == before.page_at(o));
        }
    }
    assert forall|o: u64| a.dom().contains(o) implies a[o] == b[o] by {
        if o != node.offset {
            assert(after.page_at(o) == before.page_at(o));
        }
    }
    assert(a =~= b);
}

} // verus!
