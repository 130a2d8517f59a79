//! What holds of an index over any run of insertions, changes and removals.

use vstd::prelude::*;
use crate::index::Index;
use crate::error::Error;
use crate::nodes::io::{all_exact, heap, marked_root, node_at, node_encoding, one_root};
use crate::tree::scan::{ascending, leaves_of, lemma_leaves_hold_enough, lists};
use crate::tree::shape::{min_keys, root_slot};
use crate::tree::Tree;
use crate::value::Value;

verus! {

/// What an index holds after the pairs were put in one after another.
pub open spec fn inserted<K, V>(start: Map<K, V>, pairs: Seq<(K, V)>) -> Map<K, V>
    decreases pairs.len(),
{
    if pairs.len() == 0 {
        start
    } else {
        inserted(start, pairs.drop_last()).insert(pairs.last().0, pairs.last().1)
    }
}

/// Whether no key stands in two of the pairs.
pub open spec fn distinct_keys<K, V>(pairs: Seq<(K, V)>) -> bool {
    forall|i: int, j: int| 0 <= i < j < pairs.len() ==> pairs[i].0 != pairs[j].0
}

/// The keys of the pairs.
pub open spec fn keys_of<K, V>(pairs: Seq<(K, V)>) -> Seq<K> {
    Seq::new(pairs.len(), |i: int| pairs[i].0)
}

/// Pairs with distinct keys that are put into an empty index, in whatever
/// order, are all found there with their values, and nothing else is. None
/// of them is refused as a duplicate: each key is new when its turn comes.
pub proof fn lemma_inserted_are_found<K, V>(pairs: Seq<(K, V)>)
    requires
        distinct_keys(pairs),
    ensures
        forall|i: int|
            0 <= i < pairs.len() ==> inserted(Map::<K, V>::empty(), pairs).get(
                (#[trigger] pairs[i]).0,
            ) == Some(pairs[i].1),
        forall|k: K|
            #[trigger] inserted(Map::<K, V>::empty(), pairs).contains_key(k) ==> exists|i: int|
                0 <= i < pairs.len() && pairs[i].0 == k,
        forall|i: int|
            0 <= i < pairs.len() ==> !inserted(
                Map::<K, V>::empty(),
                #[trigger] pairs.subrange(0, i),
            ).contains_key(pairs[i].0),
    decreases pairs.len(),
{
    let all = inserted(Map::<K, V>::empty(), pairs);
    if pairs.len() > 0 {
        let front = pairs.drop_last();
        let before = inserted(Map::<K, V>::empty(), front);
        lemma_inserted_are_found(front);
        assert forall|i: int| 0 <= i < pairs.len() implies all.get((#[trigger] pairs[i]).0) == Some(
            pairs[i].1,
        ) by {
            if i < pairs.len() - 1 {
                assert(front[i] == pairs[i]);
                assert(pairs[i].0 != pairs.last().0);
            }
        }
        assert forall|k: K| #[trigger] all.contains_key(k) implies exists|i: int|
            0 <= i < pairs.len() && pairs[i].0 == k by {
            if k != pairs.last().0 {
                let i = choose|i: int| 0 <= i < front.len() && front[i].0 == k;
                assert(pairs[i].0 == k);
            }
        }
        assert forall|i: int| 0 <= i < pairs.len() implies !inserted(
            Map::<K, V>::empty(),
            #[trigger] pairs.subrange(0, i),
        ).contains_key(pairs[i].0) by {
            if i < pairs.len() - 1 {
                assert(front.subrange(0, i) =~= pairs.subrange(0, i));
                assert(front[i] == pairs[i]);
            } else {
                assert(pairs.subrange(0, i) =~= front);
                if before.contains_key(pairs[i].0) {
                    let j = choose|j: int| 0 <= j < front.len() && front[j].0 == pairs[i].0;
                    assert(pairs[j].0 == pairs[i].0);
                }
            }
        }
    }
}

/// After pairs with distinct keys were put into an empty index, a scan
/// along the leaves gives each of the pairs once, in strictly ascending
/// order of the keys, and nothing else.
pub proof fn lemma_scan_gives_all<K: Index, V>(pairs: Seq<(K, V)>, out: Seq<(K, V)>)
    requires
        distinct_keys(pairs),
        ascending(out),
        lists(out, inserted(Map::<K, V>::empty(), pairs)),
    ensures
        out.len() == pairs.len(),
        distinct_keys(out),
        forall|i: int| 0 <= i < pairs.len() ==> out.contains(#[trigger] pairs[i]),
        forall|j: int| 0 <= j < out.len() ==> pairs.contains(#[trigger] out[j]),
{
    let map = inserted(Map::<K, V>::empty(), pairs);
    lemma_inserted_are_found(pairs);
    assert forall|i: int, j: int| 0 <= i < j < out.len() implies out[i].0 != out[j].0 by {
        assert(out[i].0.rank() < out[j].0.rank());
    }
    assert forall|i: int| 0 <= i < pairs.len() implies out.contains(#[trigger] pairs[i]) by {
        assert(map.get(pairs[i].0) == Some(pairs[i].1));
        assert(map.contains_key(pairs[i].0));
        let j = choose|j: int| 0 <= j < out.len() && out[j].0 == pairs[i].0;
        assert(map.get(out[j].0) == Some(out[j].1));
        assert(out[j] == pairs[i]);
    }
    assert forall|j: int| 0 <= j < out.len() implies pairs.contains(#[trigger] out[j]) by {
        assert(map.get(out[j].0) == Some(out[j].1));
        assert(map.contains_key(out[j].0));
        let i = choose|i: int| 0 <= i < pairs.len() && pairs[i].0 == out[j].0;
        assert(map.get(pairs[i].0) == Some(pairs[i].1));
        assert(pairs[i] == out[j]);
    }
    let a = keys_of(pairs);
    let b = keys_of(out);
    assert(a.no_duplicates());
    assert(b.no_duplicates());
    a.unique_seq_to_set();
    b.unique_seq_to_set();
    assert(a.to_set() =~= b.to_set()) by {
        assert forall|k: K| a.to_set().contains(k) <==> b.to_set().contains(k) by {
            if a.contains(k) {
                let i = choose|i: int| 0 <= i < a.len() && a[i] == k;
                assert(out.contains(pairs[i]));
                let j = choose|j: int| 0 <= j < out.len() && out[j] == pairs[i];
                assert(b[j] == k);
            }
            if b.contains(k) {
                let j = choose|j: int| 0 <= j < b.len() && b[j] == k;
                assert(pairs.contains(out[j]));
                let i = choose|i: int| 0 <= i < pairs.len() && pairs[i] == out[j];
                assert(a[i] == k);
            }
        }
    }
}

/// A key that was given another value is found with that value; every other
/// key is found as before, and no key has come or gone.
pub proof fn lemma_updated_is_found<K, V>(before: Map<K, V>, key: K, value: V)
    requires
        before.contains_key(key),
    ensures
        before.insert(key, value).get(key) == Some(value),
        before.insert(key, value).dom() == before.dom(),
        forall|other: K| other != key ==> before.insert(key, value).get(other) == before.get(other),
{
    assert(before.insert(key, value).dom() =~= before.dom());
}

/// A key that was taken out is not found any more, while every other key is
/// found as before; the key can be put in again, and is then found with its
/// new value.
pub proof fn lemma_deleted_is_gone<K, V>(before: Map<K, V>, key: K, value: V)
    ensures
        before.remove(key).get(key) == None::<V>,
        !before.remove(key).contains_key(key),
        forall|other: K| other != key ==> before.remove(key).get(other) == before.get(other),
        before.remove(key).insert(key, value).get(key) == Some(value),
{
}

/// In a well-formed tree every leaf holds no more keys than a page has room
/// for, and every leaf but the root at least half the degree, rounded down:
/// after whatever insertions and removals, no leaf lacks keys.
pub proof fn lemma_no_leaf_lacks_keys<K: Index, V: Value>(tree: Tree<K, V>, i: int)
    requires
        tree.wf(),
        0 <= i < leaves_of(
            heap::<K, V>(tree.file, tree.degree as nat),
            0,
            tree.height as nat,
        ).len(),
    ensures
        ({
            let m = heap::<K, V>(tree.file, tree.degree as nat);
            let leaf = leaves_of(m, 0, tree.height as nat)[i];
            &&& m.dom().contains(leaf)
            &&& m[leaf].is_leaf()
            &&& m[leaf].keys.len() + 1 <= tree.degree
            &&& leaf != 0 ==> m[leaf].keys.len() >= min_keys(tree.degree as nat)
        }),
{
    lemma_leaves_hold_enough(
        heap::<K, V>(tree.file, tree.degree as nat),
        tree.degree as nat,
        root_slot::<K>(tree.height as nat),
        (tree.degree - 1) as nat,
        i,
    );
}

/// Putting a new key into a well-formed tree in which every node on the way
/// to the key's leaf is full, the root included, succeeds and makes the tree
/// grow by one level: the tree is well-formed at the new height, so that
/// every leaf is at the same depth, the root is where it was, at offset zero,
/// and no pair that was there is lost. The file has to have room for the
/// records that an insertion may add.
pub proof fn lemma_full_path_grows<K: Index, V: Value>(
    before: Tree<K, V>,
    after: Tree<K, V>,
    key: K,
    value: V,
)
    requires
        before.wf(),
        before.grows_with(key),
        !before@.contains_key(key),
        before.file.has_room(before.records_needed()),
        Tree::put(before, after, key, value),
    ensures
        before.insert_result(key) == Ok::<(), Error>(()),
        after.height == before.height + 1,
        Tree::<K, V>::holds_tree(after.file, after.degree as nat, (before.height + 1) as nat),
        heap::<K, V>(after.file, after.degree as nat)[0] == after.root@,
        after.root@.is_root,
        forall|k: K| #[trigger] before@.contains_key(k) ==> after@.get(k) == before@.get(k),
        after.get_result(key) == Ok::<V, Error>(value),
{
}

/// A key that was taken out of a well-formed tree is not found any more, and
/// can be put in again: the insertion succeeds, without a complaint about a
/// duplicate, and the key is then found with its new value. Both trees are
/// well-formed, so that no leaf lacks keys. The file has to have room for
/// the records that an insertion may add.
pub proof fn lemma_reinsert_after_delete<K: Index, V: Value>(
    before: Tree<K, V>,
    without: Tree<K, V>,
    again: Tree<K, V>,
    key: K,
    value: V,
)
    requires
        before.wf(),
        before@.contains_key(key),
        Tree::taken(before, without, key),
        without.file.has_room(without.records_needed()),
        Tree::put(without, again, key, value),
    ensures
        before.delete_result(key) == Ok::<(), Error>(()),
        without.wf(),
        without.get_result(key) == Err::<V, Error>(Error::NotFound),
        without.insert_result(key) == Ok::<(), Error>(()),
        again.wf(),
        again.get_result(key) == Ok::<V, Error>(value),
        forall|k: K| k != key ==> again@.get(k) == before@.get(k),
{
}

/// In a well-formed tree the node at offset zero is the root and is marked
/// so. Where the file is exact, as the file of a new tree is and stays, no
/// other record of it stands for a node that is marked as the root: not one
/// that the tree reaches, and not one that it has left behind.
pub proof fn lemma_one_root<K: Index, V: Value>(tree: Tree<K, V>, offset: u64)
    requires
        tree.wf(),
        tree.exact(),
    ensures
        heap::<K, V>(tree.file, tree.degree as nat).dom().contains(0),
        heap::<K, V>(tree.file, tree.degree as nat)[0] == tree.root@,
        tree.root@.is_root,
        tree.root@.offset == 0,
        marked_root::<K, V>(tree.file, tree.degree as nat, offset) ==> offset == 0,
{
    reveal(one_root);
}

/// In a tree whose file is exact, as the file of a new tree is and stays,
/// every record that stands for a node holds exactly the encoding of that
/// node: the fields in their places and zeros elsewhere. What the nodes are
/// fixes the bytes of the file.
pub proof fn lemma_records_are_exact<K: Index, V: Value>(tree: Tree<K, V>, offset: u64)
    requires
        tree.exact(),
        node_at::<K, V>(tree.file, tree.degree as nat, offset) is Some,
    ensures
        tree.file.page_at(offset) == Some(
            node_encoding(heap::<K, V>(tree.file, tree.degree as nat)[offset], tree.degree as nat),
        ),
{
    reveal(all_exact);
}

} // verus!
