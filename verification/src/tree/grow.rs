//! A leaf that takes in a pair.

use vstd::prelude::*;
use crate::index::Index;
use crate::nodes::crud::{
    has_key, lemma_insert_sorted, lemma_leaf_map_insert, lemma_route, position, route,
};
use crate::nodes::io::Heap;
use crate::nodes::NodeView;
use crate::tree::shape::{contents, in_range, shape_with, Slot};
use crate::value::Value;

verus! {

/// A leaf with one more pair in it: the pair stands at the key's route.
pub open spec fn leaf_with<K: Index, V>(n: NodeView<K, V>, key: K, value: V) -> NodeView<K, V> {
    NodeView {
        keys: n.keys.insert(route(n.keys, key), key),
        values: n.values.insert(route(n.keys, key), value),
        ..n
    }
}

/// A leaf in which `key` has the value `value`: the value stands at the key's
/// index, and nothing else has changed.
pub open spec fn leaf_set<K, V>(n: NodeView<K, V>, key: K, value: V) -> NodeView<K, V> {
    NodeView { values: n.values.update(position(n.keys, key), value), ..n }
}

/// Putting an absent key within the bounds into a well-formed leaf gives a
/// well-formed leaf, with room for one key more, that holds the pair besides
/// what it held.
pub proof fn lemma_leaf_put<K: Index, V: Value>(
    m: Heap<K, V>,
    degree: nat,
    s: Slot<K>,
    room: nat,
    key: K,
    value: V,
)
    requires
        shape_with(m, degree, s, room),
        s.height == 0,
        in_range(key, s.low, s.high),
        !has_key(m[s.offset].keys, key),
    ensures
        ({
            let top = leaf_with(m[s.offset], key, value);
            let mv = m.insert(s.offset, top);
            &&& shape_with(mv, degree, s, room + 1)
            &&& top.keys.len() == m[s.offset].keys.len() + 1
            &&& contents(mv, s.offset, 0) == contents(m, s.offset, 0).insert(key, value)
        }),
{
    let n = m[s.offset];
    let top = leaf_with(n, key, value);
    let r = route(n.keys, key);
    lemma_route(n.keys, key);
    lemma_insert_sorted(n.keys, key);
    lemma_leaf_map_insert(n.keys, n.values, key, value);
    assert forall|i: int| 0 <= i < top.keys.len() implies in_range(
        #[trigger] top.keys[i],
        s.low,
        s.high,
    ) by {
        if i < r {
            assert(top.keys[i] == n.keys[i]);
        } else if i > r {
            assert(top.keys[i] == n.keys[i - 1]);
        }
    }
}

} // verus!
