//! What a single node does: routing a key, and putting in, changing, taking
//! out, dividing and joining what it holds.

use vstd::prelude::*;
use crate::error::Error;
use crate::index::{same_key, Index};
use crate::node_type::NodeType;
use crate::nodes::Node;
use crate::value::Value;

verus! {

/// Whether the keys stand in strictly ascending order.
pub open spec fn sorted<K: Index>(keys: Seq<K>) -> bool {
    forall|i: int, j: int| 0 <= i < j < keys.len() ==> keys[i].rank() < keys[j].rank()
}

/// Whether `i` is the first index whose key exceeds `key`, or the number of
/// keys where none does.
pub open spec fn is_route<K: Index>(keys: Seq<K>, key: K, i: int) -> bool {
    &&& 0 <= i <= keys.len()
    &&& forall|j: int| 0 <= j < i ==> (#[trigger] keys[j]).rank() <= key.rank()
    &&& i < keys.len() ==> key.rank() < keys[i].rank()
}

/// The first index whose key exceeds `key`, or the number of keys where none
/// does: where `key` is inserted among the keys of a leaf, and the child of an
/// internal node that `key` belongs to. A key equal to a separator goes right.
pub open spec fn route<K: Index>(keys: Seq<K>, key: K) -> int {
    choose|i: int| is_route(keys, key, i)
}

/// There is exactly one first index whose key exceeds `key`.
pub proof fn lemma_route<K: Index>(keys: Seq<K>, key: K)
    ensures
        is_route(keys, key, route(keys, key)),
        forall|i: int| is_route(keys, key, i) ==> i == route(keys, key),
{
    lemma_route_exists(keys, key);
    let r = route(keys, key);
    assert forall|i: int| is_route(keys, key, i) implies i == r by {
        if i < r {
            assert(keys[i].rank() <= key.rank());
        } else if r < i {
            assert(keys[r].rank() <= key.rank());
        }
    }
}

/// Among the keys there is a first one that exceeds `key`, or none of them
/// does.
proof fn lemma_route_exists<K: Index>(keys: Seq<K>, key: K)
    ensures
        exists|i: int| is_route(keys, key, i),
{
    if exists|j: int| 0 <= j < keys.len() && key.rank() < (#[trigger] keys[j]).rank() {
        lemma_first_above(keys, key, keys.len() as int);
    } else {
        assert(is_route(keys, key, keys.len() as int));
    }
}

/// If one of the first `n` keys exceeds `key`, one of them is the first to.
proof fn lemma_first_above<K: Index>(keys: Seq<K>, key: K, n: int)
    requires
        0 <= n <= keys.len(),
        exists|j: int| 0 <= j < n && key.rank() < (#[trigger] keys[j]).rank(),
    ensures
        exists|i: int| 0 <= i < n && is_route(keys, key, i),
    decreases n,
{
    if exists|j: int| 0 <= j < n - 1 && key.rank() < (#[trigger] keys[j]).rank() {
        lemma_first_above(keys, key, n - 1);
    } else {
        assert(is_route(keys, key, n - 1));
    }
}

/// Whether `key` is among the keys.
pub open spec fn has_key<K>(keys: Seq<K>, key: K) -> bool {
    exists|i: int| 0 <= i < keys.len() && keys[i] == key
}

/// An index at which `key` stands among the keys.
pub open spec fn position<K>(keys: Seq<K>, key: K) -> int {
    choose|i: int| 0 <= i < keys.len() && keys[i] == key
}

/// What a leaf holds: each key with the value at the key's index.
pub open spec fn leaf_map<K, V>(keys: Seq<K>, values: Seq<V>) -> Map<K, V> {
    Map::new(|k: K| has_key(keys, k), |k: K| values[position(keys, k)])
}

/// In ascending keys each key stands at one index only.
pub proof fn lemma_sorted_position<K: Index>(keys: Seq<K>, i: int)
    requires
        sorted(keys),
        0 <= i < keys.len(),
    ensures
        has_key(keys, keys[i]),
        position(keys, keys[i]) == i,
{
    let p = position(keys, keys[i]);
    if p < i {
        assert(keys[p].rank() < keys[i].rank());
    } else if i < p {
        assert(keys[i].rank() < keys[p].rank());
    }
}

/// Inserting an absent key at its route keeps the keys ascending.
pub proof fn lemma_insert_sorted<K: Index>(keys: Seq<K>, key: K)
    requires
        sorted(keys),
        !has_key(keys, key),
    ensures
        sorted(keys.insert(route(keys, key), key)),
{
    lemma_route(keys, key);
    let r = route(keys, key);
    let after = keys.insert(r, key);
    assert forall|i: int, j: int| 0 <= i < j < after.len() implies after[i].rank()
        < after[j].rank() by {
        if j == r {
            assert(after[i] == keys[i]);
            assert(keys[i].rank() <= key.rank());
            if keys[i].rank() == key.rank() {
                K::lemma_rank_one_to_one(keys[i], key);
            }
        } else if i == r {
            assert(after[j] == keys[j - 1]);
            assert(keys[r].rank() <= keys[j - 1].rank());
        } else {
            let oi = if i < r { i } else { i - 1 };
            let oj = if j < r { j } else { j - 1 };
            assert(after[i] == keys[oi] && after[j] == keys[oj]);
        }
    }
}

/// What a leaf with ascending keys holds for the key at index `i` is the
/// value at index `i`.
pub proof fn lemma_leaf_map_at<K: Index, V>(keys: Seq<K>, values: Seq<V>, i: int)
    requires
        sorted(keys),
        0 <= i < keys.len(),
    ensures
        leaf_map(keys, values).get(keys[i]) == Some(values[i]),
{
    lemma_sorted_position(keys, i);
}

/// Putting an absent key with its value into a leaf at the key's route adds
/// the pair to what the leaf holds.
pub proof fn lemma_leaf_map_insert<K: Index, V>(keys: Seq<K>, values: Seq<V>, key: K, value: V)
    requires
        sorted(keys),
        values.len() == keys.len(),
        !has_key(keys, key),
    ensures
        leaf_map(keys.insert(route(keys, key), key), values.insert(route(keys, key), value))
            == leaf_map(keys, values).insert(key, value),
{
    lemma_route(keys, key);
    lemma_insert_sorted(keys, key);
    let r = route(keys, key);
    let keys2 = keys.insert(r, key);
    let values2 = values.insert(r, value);
    let a = leaf_map(keys2, values2);
    let b = leaf_map(keys, values).insert(key, value);
    assert forall|k: K| a.dom().contains(k) <==> b.dom().contains(k) by {
        if has_key(keys2, k) {
            let p = position(keys2, k);
            if p < r {
                assert(keys[p] == k);
            } else if p > r {
                assert(keys[p - 1] == k);
            }
        }
        if has_key(keys, k) {
            let p = position(keys, k);
            if p < r {
                assert(keys2[p] == k);
            } else {
                assert(keys2[p + 1] == k);
            }
        }
        if k == key {
            assert(keys2[r] == k);
        }
    }
    assert forall|k: K| a.dom().contains(k) implies a[k] == b[k] by {
        let p = position(keys2, k);
        lemma_sorted_position(keys2, p);
        if p < r {
            lemma_sorted_position(keys, p);
        } else if p > r {
            lemma_sorted_position(keys, p - 1);
        }
    }
    assert(a =~= b);
}

/// Giving the key at index `i` of a leaf another value changes what the leaf
/// holds for that key only.
pub proof fn lemma_leaf_map_update<K: Index, V>(keys: Seq<K>, values: Seq<V>, i: int, value: V)
    requires
        sorted(keys),
        values.len() == keys.len(),
        0 <= i < keys.len(),
    ensures
        leaf_map(keys, values.update(i, value)) == leaf_map(keys, values).insert(keys[i], value),
{
    let a = leaf_map(keys, values.update(i, value));
    let b = leaf_map(keys, values).insert(keys[i], value);
    lemma_sorted_position(keys, i);
    assert forall|k: K| a.dom().contains(k) implies a[k] == b[k] by {
        let p = position(keys, k);
        lemma_sorted_position(keys, p);
    }
    assert(a =~= b);
}

/// Cutting a leaf with ascending keys in two at `mid` leaves each key with
/// its value in the half on its side of the key at `mid`.
pub proof fn lemma_leaf_map_split<K: Index, V>(keys: Seq<K>, values: Seq<V>, mid: int, key: K)
    requires
        sorted(keys),
        values.len() == keys.len(),
        0 <= mid < keys.len(),
    ensures
        leaf_map(keys, values).get(key) == if key.rank() < keys[mid].rank() {
            leaf_map(keys.subrange(0, mid), values.subrange(0, mid)).get(key)
        } else {
            leaf_map(
                keys.subrange(mid, keys.len() as int),
                values.subrange(mid, keys.len() as int),
            ).get(key)
        },
{
    let lk = keys.subrange(0, mid);
    let lv = values.subrange(0, mid);
    let rk = keys.subrange(mid, keys.len() as int);
    let rv = values.subrange(mid, keys.len() as int);
    assert(sorted(lk));
    assert(sorted(rk));
    if has_key(keys, key) {
        let p = position(keys, key);
        lemma_sorted_position(keys, p);
        if p < mid {
            assert(lk[p] == key);
            lemma_sorted_position(lk, p);
        } else {
            assert(rk[p - mid] == key);
            lemma_sorted_position(rk, p - mid);
        }
    } else {
        if has_key(lk, key) {
            let p = position(lk, key);
            assert(keys[p] == key);
        }
        if has_key(rk, key) {
            let p = position(rk, key);
            assert(keys[p + mid] == key);
        }
    }
}

/// Below the key at `mid` a key has the same route among the keys before
/// `mid` as among all of them.
pub proof fn lemma_route_prefix<K: Index>(keys: Seq<K>, mid: int, key: K)
    requires
        sorted(keys),
        0 <= mid < keys.len(),
        key.rank() < keys[mid].rank(),
    ensures
        route(keys.subrange(0, mid), key) == route(keys, key),
        route(keys, key) <= mid,
{
    lemma_route(keys, key);
    lemma_route(keys.subrange(0, mid), key);
    let r = route(keys, key);
    if r > mid {
        assert(keys[mid].rank() <= key.rank());
    }
    let front = keys.subrange(0, mid);
    assert(is_route(front, key, r)) by {
        assert forall|j: int| 0 <= j < r implies (#[trigger] front[j]).rank() <= key.rank() by {
            assert(keys[j].rank() <= key.rank());
        }
    }
}

/// From the key at `mid` on a key has among the keys behind `mid` the route
/// that it has among all of them, counted from there.
pub proof fn lemma_route_suffix<K: Index>(keys: Seq<K>, mid: int, key: K)
    requires
        sorted(keys),
        0 <= mid < keys.len(),
        keys[mid].rank() <= key.rank(),
    ensures
        route(keys.subrange(mid + 1, keys.len() as int), key) == route(keys, key) - (mid + 1),
        route(keys, key) >= mid + 1,
{
    lemma_route(keys, key);
    let back = keys.subrange(mid + 1, keys.len() as int);
    lemma_route(back, key);
    let r = route(keys, key);
    if r <= mid {
        if r < mid {
            assert(keys[r].rank() < keys[mid].rank());
        }
    }
    assert(is_route(back, key, r - (mid + 1))) by {
        assert forall|j: int| 0 <= j < r - (mid + 1) implies (#[trigger] back[j]).rank()
            <= key.rank() by {
            assert(keys[j + mid + 1].rank() <= key.rank());
        }
    }
}

/// With a new key put between its two neighbours at index `i`, a key is
/// routed as before where that was before `i`, one further where it was
/// behind `i`, and at `i` to the side of the new key on which it lies.
pub proof fn lemma_route_insert<K: Index>(keys: Seq<K>, i: int, separator: K, key: K)
    requires
        sorted(keys),
        0 <= i <= keys.len(),
        i > 0 ==> keys[i - 1].rank() < separator.rank(),
        i < keys.len() ==> separator.rank() < keys[i].rank(),
    ensures
        sorted(keys.insert(i, separator)),
        route(keys.insert(i, separator), key) == if route(keys, key) < i {
            route(keys, key)
        } else if route(keys, key) > i {
            route(keys, key) + 1
        } else if key.rank() < separator.rank() {
            i
        } else {
            i + 1
        },
{
    lemma_route(keys, key);
    let after = keys.insert(i, separator);
    lemma_route(after, key);
    let r = route(keys, key);
    assert forall|a: int, b: int| 0 <= a < b < after.len() implies after[a].rank()
        < after[b].rank() by {
        let oa = if a < i { a } else { a - 1 };
        let ob = if b < i { b } else { b - 1 };
        if a == i {
            assert(after[b] == keys[b - 1]);
            if i < b - 1 {
                assert(keys[i].rank() < keys[b - 1].rank());
            }
        } else if b == i {
            assert(after[a] == keys[a]);
            if a < i - 1 {
                assert(keys[a].rank() < keys[i - 1].rank());
            }
        } else {
            assert(after[a] == keys[oa] && after[b] == keys[ob]);
        }
    }
    let target = if r < i {
        r
    } else if r > i {
        r + 1
    } else if key.rank() < separator.rank() {
        i
    } else {
        i + 1
    };
    assert(is_route(after, key, target)) by {
        assert forall|j: int| 0 <= j < target implies (#[trigger] after[j]).rank()
            <= key.rank() by {
            if j < i {
                assert(after[j] == keys[j]);
                if j >= r {
                    assert(keys[r].rank() <= keys[j].rank());
                }
            } else if j > i {
                assert(after[j] == keys[j - 1]);
                assert(keys[j - 1].rank() <= key.rank());
            } else {
                if r > i {
                    assert(keys[i].rank() <= key.rank());
                }
            }
        }
        if target < after.len() {
            if target < i {
                assert(after[target] == keys[target]);
            } else if target > i {
                assert(after[target] == keys[target - 1]);
            }
        }
    }
}

/// A key that lies between the keys before and at index `i` is routed to
/// `i`.
pub proof fn lemma_route_between<K: Index>(keys: Seq<K>, key: K, i: int)
    requires
        sorted(keys),
        0 <= i <= keys.len(),
        i > 0 ==> keys[i - 1].rank() <= key.rank(),
        i < keys.len() ==> key.rank() < keys[i].rank(),
    ensures
        route(keys, key) == i,
{
    lemma_route(keys, key);
    assert(is_route(keys, key, i)) by {
        assert forall|j: int| 0 <= j < i implies (#[trigger] keys[j]).rank() <= key.rank() by {
            if j < i - 1 {
                assert(keys[j].rank() < keys[i - 1].rank());
            }
        }
    }
}

/// Whether all keys are below `bound`.
pub open spec fn all_below<K: Index>(keys: Seq<K>, bound: K) -> bool {
    forall|i: int| 0 <= i < keys.len() ==> (#[trigger] keys[i]).rank() < bound.rank()
}

/// Whether no key is below `bound`.
pub open spec fn none_below<K: Index>(keys: Seq<K>, bound: K) -> bool {
    forall|i: int| 0 <= i < keys.len() ==> bound.rank() <= (#[trigger] keys[i]).rank()
}

/// Two leaves on the two sides of a bound, put together, hold for each key
/// what the leaf on the key's side held.
pub proof fn lemma_leaf_map_concat<K: Index, V>(
    lk: Seq<K>,
    lv: Seq<V>,
    rk: Seq<K>,
    rv: Seq<V>,
    bound: K,
    key: K,
)
    requires
        sorted(lk),
        sorted(rk),
        lv.len() == lk.len(),
        rv.len() == rk.len(),
        all_below(lk, bound),
        none_below(rk, bound),
    ensures
        sorted(lk + rk),
        leaf_map(lk + rk, lv + rv).get(key) == if key.rank() < bound.rank() {
            leaf_map(lk, lv).get(key)
        } else {
            leaf_map(rk, rv).get(key)
        },
{
    let keys = lk + rk;
    let values = lv + rv;
    assert forall|i: int, j: int| 0 <= i < j < keys.len() implies keys[i].rank()
        < keys[j].rank() by {
        if j < lk.len() {
            assert(keys[i] == lk[i] && keys[j] == lk[j]);
        } else if i >= lk.len() {
            assert(keys[i] == rk[i - lk.len()] && keys[j] == rk[j - lk.len()]);
        } else {
            assert(keys[i] == lk[i] && keys[j] == rk[j - lk.len()]);
        }
    }
    if has_key(keys, key) {
        let p = position(keys, key);
        lemma_sorted_position(keys, p);
        if p < lk.len() {
            assert(lk[p] == key);
            lemma_sorted_position(lk, p);
        } else {
            assert(rk[p - lk.len()] == key);
            lemma_sorted_position(rk, p - lk.len());
        }
    } else {
        if has_key(lk, key) {
            let p = position(lk, key);
            assert(keys[p] == key);
        }
        if has_key(rk, key) {
            let p = position(rk, key);
            assert(keys[p + lk.len()] == key);
        }
    }
    if key.rank() < bound.rank() {
        if has_key(rk, key) {
            let p = position(rk, key);
            assert(bound.rank() <= rk[p].rank());
        }
    } else {
        if has_key(lk, key) {
            let p = position(lk, key);
            assert(lk[p].rank() < bound.rank());
        }
    }
}

/// With the keys of two internal neighbours and their separator put
/// together, a key below the separator is routed as among the left keys, any
/// other as among the right keys, counted from behind the separator.
pub proof fn lemma_route_concat<K: Index>(lk: Seq<K>, separator: K, rk: Seq<K>, key: K)
    requires
        sorted(lk),
        sorted(rk),
        all_below(lk, separator),
        forall|i: int| 0 <= i < rk.len() ==> separator.rank() < (#[trigger] rk[i]).rank(),
    ensures
        sorted(lk.push(separator) + rk),
        route(lk.push(separator) + rk, key) == if key.rank() < separator.rank() {
            route(lk, key)
        } else {
            lk.len() + 1 + route(rk, key)
        },
{
    let keys = lk.push(separator) + rk;
    let n = lk.len() as int;
    assert forall|i: int, j: int| 0 <= i < j < keys.len() implies keys[i].rank()
        < keys[j].rank() by {
        if j < n {
            assert(keys[i] == lk[i] && keys[j] == lk[j]);
        } else if j == n {
            assert(keys[i] == lk[i]);
        } else if i > n {
            assert(keys[i] == rk[i - n - 1] && keys[j] == rk[j - n - 1]);
        } else if i == n {
            assert(keys[j] == rk[j - n - 1]);
        } else {
            assert(keys[i] == lk[i] && keys[j] == rk[j - n - 1]);
        }
    }
    lemma_route(lk, key);
    lemma_route(rk, key);
    lemma_route(keys, key);
    let target = if key.rank() < separator.rank() {
        route(lk, key)
    } else {
        n + 1 + route(rk, key)
    };
    assert(is_route(keys, key, target)) by {
        assert forall|j: int| 0 <= j < target implies (#[trigger] keys[j]).rank() <= key.rank() by {
            if j < n {
                assert(keys[j] == lk[j]);
            } else if j > n {
                assert(keys[j] == rk[j - n - 1]);
            }
        }
        if target < keys.len() {
            if target < n {
                assert(keys[target] == lk[target]);
            } else if target > n {
                assert(keys[target] == rk[target - n - 1]);
            }
        }
    }
}

/// Without the key at index `a`, a key is routed as before where that was up
/// to `a`, and one before where it was behind `a`.
pub proof fn lemma_route_remove<K: Index>(keys: Seq<K>, a: int, key: K)
    requires
        sorted(keys),
        0 <= a < keys.len(),
    ensures
        sorted(keys.remove(a)),
        route(keys.remove(a), key) == if route(keys, key) <= a {
            route(keys, key)
        } else {
            route(keys, key) - 1
        },
{
    let after = keys.remove(a);
    lemma_route(keys, key);
    lemma_route(after, key);
    let r = route(keys, key);
    assert forall|i: int, j: int| 0 <= i < j < after.len() implies after[i].rank()
        < after[j].rank() by {
        let oi = if i < a { i } else { i + 1 };
        let oj = if j < a { j } else { j + 1 };
        assert(after[i] == keys[oi] && after[j] == keys[oj]);
    }
    let target = if r <= a { r } else { r - 1 };
    assert(is_route(after, key, target)) by {
        assert forall|j: int| 0 <= j < target implies (#[trigger] after[j]).rank()
            <= key.rank() by {
            let oj = if j < a { j } else { j + 1 };
            assert(after[j] == keys[oj]);
            assert(keys[oj].rank() <= key.rank());
        }
        if target < after.len() {
            let ot = if target < a { target } else { target + 1 };
            assert(after[target] == keys[ot]);
            if r < ot {
                assert(keys[r].rank() < keys[ot].rank());
            }
        }
    }
}

/// With another key between its two neighbours at index `a`, a key is routed
/// as before, except between the neighbours, where it goes to the side of
/// the new key on which it lies.
pub proof fn lemma_route_update<K: Index>(keys: Seq<K>, a: int, separator: K, key: K)
    requires
        sorted(keys),
        0 <= a < keys.len(),
        a > 0 ==> keys[a - 1].rank() < separator.rank(),
        a + 1 < keys.len() ==> separator.rank() < keys[a + 1].rank(),
    ensures
        sorted(keys.update(a, separator)),
        route(keys.update(a, separator), key) == if route(keys, key) < a || route(keys, key) > a
            + 1 {
            route(keys, key)
        } else if key.rank() < separator.rank() {
            a
        } else {
            a + 1
        },
{
    let after = keys.update(a, separator);
    lemma_route(keys, key);
    lemma_route(after, key);
    let r = route(keys, key);
    assert forall|i: int, j: int| 0 <= i < j < after.len() implies after[i].rank()
        < after[j].rank() by {
        if i == a {
            if a + 1 < j {
                assert(keys[a + 1].rank() < keys[j].rank());
            }
        } else if j == a {
            if i < a - 1 {
                assert(keys[i].rank() < keys[a - 1].rank());
            }
        } else {
            assert(keys[i].rank() < keys[j].rank());
        }
    }
    let target = if r < a || r > a + 1 {
        r
    } else if key.rank() < separator.rank() {
        a
    } else {
        a + 1
    };
    assert(is_route(after, key, target)) by {
        assert forall|j: int| 0 <= j < target implies (#[trigger] after[j]).rank()
            <= key.rank() by {
            if j != a {
                if j >= r {
                    assert(keys[r].rank() <= keys[j].rank());
                    assert(j < a);
                    assert(keys[j].rank() <= keys[a - 1].rank()) by {
                        if j < a - 1 {
                            assert(keys[j].rank() < keys[a - 1].rank());
                        }
                    }
                } else {
                    assert(keys[j].rank() <= key.rank());
                }
            }
        }
        if target < after.len() {
            if target != a {
                if target > r {
                    assert(keys[r].rank() <= keys[target].rank()) by {
                        if r < target {
                            assert(keys[r].rank() < keys[target].rank());
                        }
                    }
                } else if target < r {
                    assert(target == a + 1 && r > a + 1 || target == r);
                }
            }
        }
    }
}

impl<K: Index, V: Value> Node<K, V> {
    /// The first index whose key exceeds `key`, or the number of keys where
    /// none does.
    pub fn child_index(&self, key: &K) -> (i: usize)
        ensures
            i == route(self.keys@, *key),
            i <= self.keys@.len(),
    {
        let mut i: usize = 0;
        while i < self.keys.len() && !key.comes_before(&self.keys[i])
            invariant
                i <= self.keys@.len(),
                forall|j: int| 0 <= j < i ==> (#[trigger] self.keys@[j]).rank() <= key.rank(),
            decreases self.keys@.len() - i,
        {
            i += 1;
        }
        proof {
            assert(is_route(self.keys@, *key, i as int));
            lemma_route(self.keys@, *key);
        }
        i
    }

    /// The first index at which `key` stands, if it is among the keys.
    pub fn find_key(&self, key: &K) -> (r: Option<usize>)
        ensures
            match r {
                Some(i) => i < self.keys@.len() && self.keys@[i as int] == *key && forall|j: int|
                    0 <= j < i ==> self.keys@[j] != *key,
                None => !has_key(self.keys@, *key),
            },
    {
        let mut i: usize = 0;
        while i < self.keys.len()
            invariant
                i <= self.keys@.len(),
                forall|j: int| 0 <= j < i ==> self.keys@[j] != *key,
            decreases self.keys@.len() - i,
        {
            if same_key(&self.keys[i], key) {
                return Some(i);
            }
            i += 1;
        }
        None
    }

    /// Puts `key` with `value` into a leaf: at the first index whose key
    /// exceeds `key`, so that ascending keys stay ascending. The node is then
    /// dirty. A key that the leaf already holds is refused and the leaf stays
    /// as it is.
    pub fn insert_kv(&mut self, key: K, value: V) -> (r: Result<(), Error>)
        requires
            old(self).values@.len() == old(self).keys@.len(),
        ensures
            has_key(old(self).keys@, key) ==> r == Err::<(), Error>(Error::DuplicateKey)
                && *final(self) == *old(self),
            !has_key(old(self).keys@, key) ==> r is Ok && *final(self) == (Node {
                is_dirty: true,
                keys: final(self).keys,
                values: final(self).values,
                ..*old(self)
            }) && final(self).keys@ == old(self).keys@.insert(
                route(old(self).keys@, key),
                key,
            ) && final(self).values@ == old(self).values@.insert(
                route(old(self).keys@, key),
                value,
            ),
    {
        if self.find_key(&key).is_some() {
            return Err(Error::DuplicateKey);
        }
        let i = self.child_index(&key);
        self.set_dirty();
        self.keys.insert(i, key);
        self.values.insert(i, value);
        Ok(())
    }

    /// Gives `key` another value in a leaf. A key that the leaf does not hold
    /// is reported as not found and the leaf stays as it is; otherwise the
    /// leaf is dirty.
    pub fn update(&mut self, key: K, value: V) -> (r: Result<(), Error>)
        requires
            old(self).values@.len() == old(self).keys@.len(),
        ensures
            !has_key(old(self).keys@, key) ==> r == Err::<(), Error>(Error::NotFound)
                && *final(self) == *old(self),
            has_key(old(self).keys@, key) ==> r is Ok && *final(self) == (Node {
                is_dirty: true,
                values: final(self).values,
                ..*old(self)
            }) && exists|i: int|
                0 <= i < old(self).keys@.len() && old(self).keys@[i] == key && final(self).values@
                    == old(self).values@.update(i, value) && forall|j: int|
                    0 <= j < i ==> old(self).keys@[j] != key,
    {
        match self.find_key(&key) {
            Some(i) => {
                self.set_dirty();
                self.values[i] = value;
                Ok(())
            },
            None => Err(Error::NotFound),
        }
    }

    /// The value that a leaf holds for `key`, if it holds one: the value at the
    /// first index at which the key stands.
    pub fn lookup(&self, key: &K) -> (r: Option<V>)
        requires
            self.values@.len() == self.keys@.len(),
        ensures
            r is Some <==> has_key(self.keys@, *key),
            r matches Some(v) ==> exists|i: int|
                0 <= i < self.keys@.len() && self.keys@[i] == *key && v == self.values@[i] && forall|
                    j: int,
                | 0 <= j < i ==> self.keys@[j] != *key,
            sorted(self.keys@) ==> r == leaf_map(self.keys@, self.values@).get(*key),
    {
        match self.find_key(key) {
            Some(i) => {
                proof {
                    if sorted(self.keys@) {
                        lemma_sorted_position(self.keys@, i as int);
                    }
                }
                Some(self.values[i])
            },
            None => None,
        }
    }

    /// Puts a separator and the child to its right into an internal node: the
    /// separator at index `i`, the child behind child `i`. The node is then
    /// dirty.
    pub fn insert_child(&mut self, i: usize, separator: K, right: u64)
        requires
            i <= old(self).keys@.len(),
            old(self).children@.len() == old(self).keys@.len() + 1,
        ensures
            *final(self) == (Node {
                is_dirty: true,
                keys: final(self).keys,
                children: final(self).children,
                ..*old(self)
            }),
            final(self).keys@ == old(self).keys@.insert(i as int, separator),
            final(self).children@ == old(self).children@.insert(i + 1, right),
    {
        let count = self.children.len();
        self.set_dirty();
        self.keys.insert(i, separator);
        self.children.insert(if i < count { i + 1 } else { count }, right);
    }

    /// Divides an overfull node at the middle index, half the degree.
    ///
    /// The node keeps what stands before the middle and hands out a new node
    /// for `right_offset` with what stands behind it, together with the key
    /// at the middle: the separator. A leaf hands the middle key itself to
    /// the new leaf, which takes over the link to the next leaf, and is then
    /// linked to the new leaf. An internal node hands the middle key up only,
    /// and the children to the right of it over. Both nodes are dirty.
    pub fn divide(&mut self, right_offset: u64) -> (r: (K, Node<K, V>))
        requires
            old(self).degree >= 2,
            old(self).keys@.len() == old(self).degree,
            old(self)@.is_leaf() ==> old(self).values@.len() == old(self).keys@.len(),
            !old(self)@.is_leaf() ==> old(self).children@.len() == old(self).keys@.len() + 1,
        ensures
            Self::divided_at(*old(self), *final(self), r, (old(self).degree / 2) as int, right_offset),
    {
        let mid = self.degree / 2;
        self.divide_at(mid, right_offset)
    }

    /// What dividing a node at `mid` comes to: `before` is the node as it
    /// was, `left` as it is, and `r` the separator with the node handed out.
    pub open spec fn divided_at(
        before: Node<K, V>,
        left: Node<K, V>,
        r: (K, Node<K, V>),
        mid: int,
        right_offset: u64,
    ) -> bool {
        let len = before.keys@.len() as int;
        let right = r.1;
        &&& r.0 == before.keys@[mid]
        &&& left.keys@ == before.keys@.subrange(0, mid)
        &&& left.is_dirty
        &&& left.is_root == before.is_root
        &&& left.degree == before.degree
        &&& left.offset == before.offset
        &&& left.parent_offset == before.parent_offset
        &&& right.is_dirty
        &&& !right.is_root
        &&& right.degree == before.degree
        &&& right.offset == right_offset
        &&& right.parent_offset == before.parent_offset
        &&& right.node_type == before.node_type
        &&& if before@.is_leaf() {
            &&& left.node_type == NodeType::Leaf(Some(right_offset))
            &&& left.values@ == before.values@.subrange(0, mid)
            &&& left.children@ == before.children@
            &&& right.keys@ == before.keys@.subrange(mid, len)
            &&& right.values@ == before.values@.subrange(mid, len)
            &&& right.children@.len() == 0
        } else {
            &&& left.node_type == NodeType::Internal
            &&& left.values@ == before.values@
            &&& left.children@ == before.children@.subrange(0, mid + 1)
            &&& right.keys@ == before.keys@.subrange(mid + 1, len)
            &&& right.values@.len() == 0
            &&& right.children@ == before.children@.subrange(mid + 1, len + 1)
        }
    }

    /// Divides a node at the index `mid`, as [`Node::divide`] does at the
    /// middle.
    pub fn divide_at(&mut self, mid: usize, right_offset: u64) -> (r: (K, Node<K, V>))
        requires
            mid < old(self).keys@.len(),
            old(self)@.is_leaf() ==> old(self).values@.len() == old(self).keys@.len(),
            !old(self)@.is_leaf() ==> old(self).children@.len() == old(self).keys@.len() + 1,
        ensures
            Self::divided_at(*old(self), *final(self), r, mid as int, right_offset),
    {
        let separator = self.keys[mid];
        let count = self.keys.len();
        let mut right: Node<K, V> = Node {
            node_type: self.node_type,
            is_root: false,
            is_dirty: true,
            degree: self.degree,
            parent_offset: self.parent_offset,
            offset: right_offset,
            keys: Vec::new(),
            values: Vec::new(),
            children: Vec::new(),
        };
        assert(mid < count);
        if self.node_type.is_leaf() {
            right.keys = self.keys.split_off(mid);
            right.values = self.values.split_off(mid);
            self.node_type = NodeType::Leaf(Some(right_offset));
        } else {
            right.keys = self.keys.split_off(mid + 1);
            right.children = self.children.split_off(mid + 1);
            self.keys.truncate(mid);
        }
        self.is_dirty = true;
        proof {
            let keys = old(self).keys@;
            assert(keys.subrange(0, mid + 1).subrange(0, mid as int) =~= keys.subrange(
                0,
                mid as int,
            ));
        }
        (separator, right)
    }

    /// Takes the pair of `key` out of a leaf and returns its value. A key
    /// that the leaf does not hold is reported as not found and the leaf
    /// stays as it is; otherwise the leaf is dirty.
    pub fn remove_kv(&mut self, key: K) -> (r: Result<V, Error>)
        requires
            old(self).values@.len() == old(self).keys@.len(),
        ensures
            !has_key(old(self).keys@, key) ==> r is Err && r->Err_0 == Error::NotFound
                && *final(self) == *old(self),
            has_key(old(self).keys@, key) ==> r is Ok && *final(self) == (Node {
                is_dirty: true,
                keys: final(self).keys,
                values: final(self).values,
                ..*old(self)
            }) && exists|i: int|
                {
                    &&& 0 <= i < old(self).keys@.len()
                    &&& old(self).keys@[i] == key
                    &&& r->Ok_0 == old(self).values@[i]
                    &&& final(self).keys@ == old(self).keys@.remove(i)
                    &&& final(self).values@ == old(self).values@.remove(i)
                    &&& forall|j: int| 0 <= j < i ==> old(self).keys@[j] != key
                },
    {
        match self.find_key(&key) {
            Some(i) => {
                self.set_dirty();
                self.keys.remove(i);
                let value = self.values.remove(i);
                Ok(value)
            },
            None => Err(Error::NotFound),
        }
    }

    /// Takes in the neighbour to the right: a leaf its pairs and its link to
    /// the next leaf, an internal node the separator, its keys and its
    /// children. The node is then dirty.
    pub fn absorb_right(&mut self, separator: K, right: Node<K, V>)
        ensures
            *final(self) == (Node {
                is_dirty: true,
                node_type: final(self).node_type,
                keys: final(self).keys,
                values: final(self).values,
                children: final(self).children,
                ..*old(self)
            }),
            old(self)@.is_leaf() ==> {
                &&& final(self).node_type == right.node_type
                &&& final(self).keys@ == old(self).keys@ + right.keys@
                &&& final(self).values@ == old(self).values@ + right.values@
                &&& final(self).children@ == old(self).children@
            },
            !old(self)@.is_leaf() ==> {
                &&& final(self).node_type == old(self).node_type
                &&& final(self).keys@ == old(self).keys@.push(separator) + right.keys@
                &&& final(self).values@ == old(self).values@
                &&& final(self).children@ == old(self).children@ + right.children@
            },
    {
        let mut right = right;
        self.is_dirty = true;
        if self.node_type.is_leaf() {
            self.node_type = right.node_type;
            self.keys.append(&mut right.keys);
            self.values.append(&mut right.values);
        } else {
            self.keys.push(separator);
            self.keys.append(&mut right.keys);
            self.children.append(&mut right.children);
        }
    }
}

} // verus!
