//! The record that describes a tree beside its node file.

use vstd::prelude::*;
use vstd::string::StringSliceAdditionalSpecFns;

verus! {

/// The record that describes a tree beside its node file: its name, the
/// sizes of its pages, keys and values, and the offsets of its leaves.
///
/// `root_id` is negative for a record that is not in use, zero for one that
/// has not been set and positive for one in use.
#[derive(Clone, Debug)]
pub struct RootFile {
    pub root_id: i64,
    pub tree_name: String,
    pub name_len: u64,
    pub page_size: u64,
    pub page_count: u64,
    pub key_size: u64,
    pub index_size: u64,
    pub value_size: u64,
    pub leaf_offsets: Vec<u64>,
}

impl RootFile {
    /// A record that has not been set: an empty name, zero for every number
    /// and no leaf.
    pub fn new() -> (r: Self)
        ensures
            r.root_id == 0,
            r.tree_name@.len() == 0,
            r.name_len == 0,
            r.page_size == 0,
            r.page_count == 0,
            r.key_size == 0,
            r.index_size == 0,
            r.value_size == 0,
            r.leaf_offsets@.len() == 0,
    {
        RootFile {
            root_id: 0,
            tree_name: String::new(),
            name_len: 0,
            page_size: 0,
            page_count: 0,
            key_size: 0,
            index_size: 0,
            value_size: 0,
            leaf_offsets: Vec::new(),
        }
    }

    /// Sets the identity of the record.
    pub fn set_root_id(&mut self, root_id: i64)
        ensures
            *final(self) == (RootFile { root_id, ..*old(self) }),
    {
        self.root_id = root_id;
    }

    /// Sets the name of the tree and, with it, the length of the name in
    /// bytes.
    pub fn set_tree_name(&mut self, tree_name: String)
        ensures
            *final(self) == (RootFile { tree_name, name_len: final(self).name_len, ..*old(self) }),
            final(self).name_len == vstd::utf8::encode_utf8(tree_name@).len() as usize,
    {
        let name = tree_name.as_str();
        let len = name.len();
        assert(name.spec_bytes() == vstd::utf8::encode_utf8(tree_name@));
        self.name_len = len as u64;
        self.tree_name = tree_name;
    }

    /// Sets the number of keys that a node holds at most.
    pub fn set_key_size(&mut self, key_size: u64)
        ensures
            *final(self) == (RootFile { key_size, ..*old(self) }),
    {
        self.key_size = key_size;
    }

    /// Sets the width of a key in bytes.
    pub fn set_index_size(&mut self, index_size: u64)
        ensures
            *final(self) == (RootFile { index_size, ..*old(self) }),
    {
        self.index_size = index_size;
    }

    /// Sets what is given of the identity, the name and the number of keys,
    /// and the widths of a key and of a value in any case.
    pub fn set_params(
        &mut self,
        root_id: Option<i64>,
        tree_name: Option<String>,
        key_size: Option<u64>,
        index_size: u64,
        value_size: u64,
    )
        ensures
            final(self).root_id == match root_id {
                Some(id) => id,
                None => old(self).root_id,
            },
            final(self).tree_name == match tree_name {
                Some(name) => name,
                None => old(self).tree_name,
            },
            final(self).name_len == match tree_name {
                Some(name) => vstd::utf8::encode_utf8(name@).len() as usize as u64,
                None => old(self).name_len,
            },
            final(self).key_size == match key_size {
                Some(size) => size,
                None => old(self).key_size,
            },
            final(self).index_size == index_size,
            final(self).value_size == value_size,
            final(self).page_size == old(self).page_size,
            final(self).page_count == old(self).page_count,
            final(self).leaf_offsets == old(self).leaf_offsets,
    {
        if let Some(id) = root_id {
            self.set_root_id(id);
        }
        if let Some(name) = tree_name {
            self.set_tree_name(name);
        }
        if let Some(size) = key_size {
            self.set_key_size(size);
        }
        self.set_index_size(index_size);
        self.set_value_size(value_size);
    }

    /// Sets the width of a value in bytes.
    pub fn set_value_size(&mut self, value_size: u64)
        ensures
            *final(self) == (RootFile { value_size, ..*old(self) }),
    {
        self.value_size = value_size;
    }
}

} // verus!
