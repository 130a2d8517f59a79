//! Bounded arrays on a page: every slot is written, the unused ones as zeros.

use vstd::prelude::*;
use crate::bytes_ext::{append_bytes, append_zeros, copy_range, BytesExtension};
use crate::error::Error;

verus! {

/// `count` zero bytes.
pub open spec fn zeros(count: nat) -> Seq<u8> {
    Seq::new(count, |i: int| 0u8)
}

/// The bytes of slot `i` of a bounded array: the encoding of item `i` where
/// there is one, zeros where there is none.
pub open spec fn slot_encoding<T: BytesExtension>(items: Seq<T>, i: int) -> Seq<u8> {
    if 0 <= i < items.len() {
        items[i].encoding()
    } else {
        zeros(T::byte_size())
    }
}

/// The bytes of a bounded array: all `capacity` slots, one after another.
pub open spec fn array_encoding<T: BytesExtension>(items: Seq<T>, capacity: nat) -> Seq<u8>
    decreases capacity,
{
    if capacity == 0 {
        Seq::empty()
    } else {
        array_encoding(items, (capacity - 1) as nat) + slot_encoding(items, capacity - 1)
    }
}

/// The first `count` items that the slots of `bytes` stand for, if each of
/// them stands for one.
pub open spec fn array_decoding<T: BytesExtension>(bytes: Seq<u8>, count: nat) -> Option<Seq<T>>
    decreases count,
{
    if count == 0 {
        Some(Seq::empty())
    } else {
        let size = T::byte_size() as int;
        match (
            array_decoding::<T>(bytes, (count - 1) as nat),
            T::decoding(bytes.subrange((count - 1) * size, count * size)),
        ) {
            (Some(front), Some(last)) => Some(front.push(last)),
            _ => None,
        }
    }
}

/// A slot is as wide as an item.
pub proof fn lemma_slot_len<T: BytesExtension>(items: Seq<T>, i: int)
    ensures
        slot_encoding(items, i).len() == T::byte_size(),
{
    if 0 <= i < items.len() {
        items[i].lemma_round_trip();
    }
}

/// An array of `capacity` slots takes `capacity` times the width of an item.
pub proof fn lemma_array_encoding_len<T: BytesExtension>(items: Seq<T>, capacity: nat)
    ensures
        array_encoding(items, capacity).len() == capacity * T::byte_size(),
    decreases capacity,
{
    if capacity > 0 {
        lemma_array_encoding_len(items, (capacity - 1) as nat);
        lemma_slot_len(items, capacity - 1);
        assert((capacity - 1) * T::byte_size() + T::byte_size() == capacity * T::byte_size())
            by (nonlinear_arith);
    } else {
        assert(capacity * T::byte_size() == 0) by (nonlinear_arith)
            requires
                capacity == 0,
        ;
    }
}

/// Slot `i` of an encoded array lies at `i` times the width of an item.
pub proof fn lemma_array_slot<T: BytesExtension>(items: Seq<T>, capacity: nat, i: int)
    requires
        0 <= i < capacity,
    ensures
        i * T::byte_size() + T::byte_size() <= array_encoding(items, capacity).len(),
        array_encoding(items, capacity).subrange(
            i * T::byte_size(),
            i * T::byte_size() + T::byte_size(),
        ) == slot_encoding(items, i),
    decreases capacity,
{
    let size = T::byte_size() as int;
    let front = array_encoding(items, (capacity - 1) as nat);
    let last = slot_encoding(items, capacity - 1);
    lemma_array_encoding_len(items, capacity);
    lemma_array_encoding_len(items, (capacity - 1) as nat);
    lemma_slot_len(items, capacity - 1);
    assert((capacity - 1) * size + size == capacity * size) by (nonlinear_arith);
    if i == capacity - 1 {
        assert((front + last).subrange(i * size, i * size + size) =~= last);
    } else {
        lemma_array_slot(items, (capacity - 1) as nat, i);
        assert(i * size + size <= (capacity - 1) * size) by (nonlinear_arith)
            requires
                0 <= i < capacity - 1,
                size >= 0,
        ;
        assert((front + last).subrange(i * size, i * size + size) =~= front.subrange(
            i * size,
            i * size + size,
        ));
    }
}

/// Decoding looks at the first `count` slots only.
pub proof fn lemma_array_decoding_prefix<T: BytesExtension>(a: Seq<u8>, b: Seq<u8>, count: nat)
    requires
        count * T::byte_size() <= a.len(),
        count * T::byte_size() <= b.len(),
        a.subrange(0, (count * T::byte_size()) as int) == b.subrange(
            0,
            (count * T::byte_size()) as int,
        ),
    ensures
        array_decoding::<T>(a, count) == array_decoding::<T>(b, count),
    decreases count,
{
    if count > 0 {
        let size = T::byte_size() as int;
        assert((count - 1) * size + size == count * size) by (nonlinear_arith);
        assert((count - 1) * size >= 0) by (nonlinear_arith)
            requires
                count >= 1,
                size >= 0,
        ;
        let pa = a.subrange(0, count * size);
        let pb = b.subrange(0, count * size);
        assert(a.subrange(0, (count - 1) * size) =~= pa.subrange(0, (count - 1) * size));
        assert(b.subrange(0, (count - 1) * size) =~= pb.subrange(0, (count - 1) * size));
        lemma_array_decoding_prefix::<T>(a, b, (count - 1) as nat);
        assert(a.subrange((count - 1) * size, count * size) =~= pa.subrange(
            (count - 1) * size,
            count * size,
        ));
        assert(b.subrange((count - 1) * size, count * size) =~= pb.subrange(
            (count - 1) * size,
            count * size,
        ));
    }
}

/// The first items of an encoded array decode to what was encoded.
pub proof fn lemma_array_round_trip<T: BytesExtension>(items: Seq<T>, capacity: nat, count: nat)
    requires
        count <= items.len() <= capacity,
    ensures
        array_decoding::<T>(array_encoding(items, capacity), count) == Some(
            items.subrange(0, count as int),
        ),
    decreases count,
{
    let bytes = array_encoding(items, capacity);
    if count == 0 {
        assert(items.subrange(0, 0) =~= Seq::<T>::empty());
    } else {
        let size = T::byte_size() as int;
        lemma_array_round_trip(items, capacity, (count - 1) as nat);
        lemma_array_slot(items, capacity, count - 1);
        assert((count - 1) * size + size == count * size) by (nonlinear_arith);
        items[count - 1].lemma_round_trip();
        assert(items.subrange(0, count - 1).push(items[count - 1]) =~= items.subrange(
            0,
            count as int,
        ));
    }
}

/// A decoded array has as many items as were asked for.
pub proof fn lemma_array_decoding_len<T: BytesExtension>(bytes: Seq<u8>, count: nat)
    ensures
        array_decoding::<T>(bytes, count) matches Some(items) ==> items.len() == count,
    decreases count,
{
    if count > 0 {
        lemma_array_decoding_len::<T>(bytes, (count - 1) as nat);
    }
}

/// Appends to `out` the `capacity` slots of a bounded array.
pub fn array_to_bytes<T: BytesExtension>(items: &Vec<T>, capacity: usize, out: &mut Vec<u8>)
    requires
        items.len() <= capacity,
    ensures
        final(out)@ == old(out)@ + array_encoding(items@, capacity as nat),
{
    let size = T::get_byte_size();
    let mut i: usize = 0;
    while i < capacity
        invariant
            i <= capacity,
            size == T::byte_size(),
            out@ == old(out)@ + array_encoding(items@, i as nat),
        decreases capacity - i,
    {
        let ghost before = out@;
        if i < items.len() {
            let raw = items[i].to_bytes();
            append_bytes(out, &raw);
        } else {
            append_zeros(out, size);
        }
        i += 1;
        assert(out@ =~= old(out)@ + array_encoding(items@, i as nat));
    }
}

/// The first `count` items of the array that starts at `start` in `bytes`, if
/// the bytes reach to the end of slot `count` and each of the slots stands
/// for an item.
pub open spec fn region_decoding<T: BytesExtension>(bytes: Seq<u8>, start: int, count: nat) -> Option<
    Seq<T>,
> {
    if start + count * T::byte_size() <= bytes.len() {
        array_decoding::<T>(bytes.subrange(start, bytes.len() as int), count)
    } else {
        None
    }
}

/// The items of a bounded array of `capacity` slots, if `bytes` is as long as
/// the array, no shorter and no longer, and each slot stands for an item.
pub open spec fn exact_array_decoding<T: BytesExtension>(bytes: Seq<u8>, capacity: nat) -> Option<
    Seq<T>,
> {
    if bytes.len() == capacity * T::byte_size() {
        array_decoding::<T>(bytes, capacity)
    } else {
        None
    }
}

/// Decodes the first `count` slots of the array that starts at `start`. Bytes
/// that end before the last of these slots are reported, as is a slot that
/// stands for no item.
pub fn array_from_bytes<T: BytesExtension>(bytes: &Vec<u8>, start: usize, count: usize) -> (r:
    Result<Vec<T>, Error>)
    ensures
        match region_decoding::<T>(bytes@, start as int, count as nat) {
            Some(items) => r is Ok && r->Ok_0@ == items,
            None => r == Err::<Vec<T>, Error>(Error::Encoding),
        },
{
    let size = T::get_byte_size();
    let len = bytes.len();
    proof {
        assert(count as nat * T::byte_size() == count * size) by (nonlinear_arith)
            requires
                size == T::byte_size(),
        ;
    }
    let needed = match count.checked_mul(size) {
        Some(needed) => needed,
        None => {
            return Err(Error::Encoding);
        },
    };
    let end = match start.checked_add(needed) {
        Some(end) => end,
        None => {
            return Err(Error::Encoding);
        },
    };
    if end > len {
        return Err(Error::Encoding);
    }
    let ghost region = bytes@.subrange(start as int, bytes.len() as int);
    let mut items: Vec<T> = Vec::new();
    let mut i: usize = 0;
    while i < count
        invariant
            i <= count,
            size == T::byte_size(),
            start + count * size <= bytes.len(),
            region == bytes@.subrange(start as int, bytes.len() as int),
            array_decoding::<T>(region, i as nat) == Some(items@),
        decreases count - i,
    {
        assert(i * size + size <= count * size) by (nonlinear_arith)
            requires
                i < count,
                size >= 0,
        ;
        assert((i + 1) * size == i * size + size) by (nonlinear_arith);
        let raw = copy_range(bytes, start + i * size, size);
        assert(raw@ =~= region.subrange(i * size, (i + 1) * size));
        match T::new_from_bytes(raw) {
            Ok(item) => {
                items.push(item);
            },
            Err(_) => {
                proof {
                    lemma_array_decoding_none::<T>(region, (i + 1) as nat, count as nat);
                }
                return Err(Error::Encoding);
            },
        }
        i += 1;
    }
    Ok(items)
}

/// Once a slot fails to decode, no longer prefix decodes.
pub proof fn lemma_array_decoding_none<T: BytesExtension>(bytes: Seq<u8>, bad: nat, count: nat)
    requires
        bad <= count,
        array_decoding::<T>(bytes, bad) is None,
    ensures
        array_decoding::<T>(bytes, count) is None,
    decreases count,
{
    if bad < count {
        lemma_array_decoding_none::<T>(bytes, bad, (count - 1) as nat);
    }
}

/// Where an encoded array stands inside a longer byte string, the items
/// decode from there.
pub proof fn lemma_array_decoding_within<T: BytesExtension>(
    whole: Seq<u8>,
    start: int,
    items: Seq<T>,
    capacity: nat,
    count: nat,
)
    requires
        0 <= start,
        start + capacity * T::byte_size() <= whole.len(),
        whole.subrange(start, start + capacity * T::byte_size()) == array_encoding(items, capacity),
        count <= items.len() <= capacity,
    ensures
        array_decoding::<T>(whole.subrange(start, whole.len() as int), count) == Some(
            items.subrange(0, count as int),
        ),
{
    let size = T::byte_size();
    let tail = whole.subrange(start, whole.len() as int);
    let exact = array_encoding(items, capacity);
    lemma_array_encoding_len(items, capacity);
    assert(count * size <= capacity * size) by (nonlinear_arith)
        requires
            count <= capacity,
    ;
    assert(tail.subrange(0, (count * size) as int) =~= exact.subrange(0, (count * size) as int));
    lemma_array_decoding_prefix::<T>(tail, exact, count);
    lemma_array_round_trip(items, capacity, count);
}

/// The offsets of an array, filled up with zeros to `count` of them.
pub open spec fn padded(offsets: Seq<u64>, count: nat) -> Seq<u64> {
    Seq::new(count, |i: int| if i < offsets.len() { offsets[i] } else { 0u64 })
}

/// The first `count` slots of an encoded array of offsets decode to the
/// offsets, and to zero where a slot was left empty.
pub proof fn lemma_offsets_round_trip(offsets: Seq<u64>, capacity: nat, count: nat)
    requires
        offsets.len() <= capacity,
        count <= capacity,
    ensures
        array_decoding::<u64>(array_encoding(offsets, capacity), count) == Some(
            padded(offsets, count),
        ),
    decreases count,
{
    if count == 0 {
        assert(padded(offsets, 0) =~= Seq::<u64>::empty());
    } else {
        lemma_offsets_round_trip(offsets, capacity, (count - 1) as nat);
        lemma_array_slot(offsets, capacity, count - 1);
        if count - 1 < offsets.len() {
            offsets[count - 1].lemma_round_trip();
        } else {
            let z = zeros(8);
            assert(z[0] == 0u8 && z[1] == 0u8 && z[2] == 0u8 && z[3] == 0u8 && z[4] == 0u8 && z[5]
                == 0u8 && z[6] == 0u8 && z[7] == 0u8);
            assert(((0u8 as u64) << 56) | ((0u8 as u64) << 48) | ((0u8 as u64) << 40) | ((0u8 as u64)
                << 32) | ((0u8 as u64) << 24) | ((0u8 as u64) << 16) | ((0u8 as u64) << 8) | (
            0u8 as u64) == 0u64) by (bit_vector);
        }
        assert(padded(offsets, (count - 1) as nat).push(padded(offsets, count)[count - 1])
            =~= padded(offsets, count));
    }
}

/// Where an encoded array of offsets stands inside a longer byte string, the
/// offsets decode from there, filled up with zeros.
pub proof fn lemma_offsets_decoding_within(
    whole: Seq<u8>,
    start: int,
    offsets: Seq<u64>,
    capacity: nat,
    count: nat,
)
    requires
        0 <= start,
        start + capacity * 8 <= whole.len(),
        whole.subrange(start, start + capacity * 8) == array_encoding(offsets, capacity),
        offsets.len() <= capacity,
        count <= capacity,
    ensures
        array_decoding::<u64>(whole.subrange(start, whole.len() as int), count) == Some(
            padded(offsets, count),
        ),
{
    let tail = whole.subrange(start, whole.len() as int);
    let exact = array_encoding(offsets, capacity);
    lemma_array_encoding_len(offsets, capacity);
    assert(tail.subrange(0, (count * 8) as int) =~= exact.subrange(0, (count * 8) as int));
    lemma_array_decoding_prefix::<u64>(tail, exact, count);
    lemma_offsets_round_trip(offsets, capacity, count);
}

/// Decodes a bounded array of `capacity` slots from bytes that hold the
/// array and nothing else. Bytes of any other length are reported, as is a
/// slot that stands for no item; the result has `capacity` items, of which a
/// caller keeps as many as are in use.
pub fn array_new_from_bytes<T: BytesExtension>(bytes: Vec<u8>, capacity: usize) -> (r: Result<
    Vec<T>,
    Error,
>)
    ensures
        match exact_array_decoding::<T>(bytes@, capacity as nat) {
            Some(items) => r is Ok && r->Ok_0@ == items,
            None => r == Err::<Vec<T>, Error>(Error::Encoding),
        },
{
    let width = T::get_byte_size();
    let len = bytes.len();
    proof {
        assert(capacity as nat * T::byte_size() == capacity * width) by (nonlinear_arith)
            requires
                width == T::byte_size(),
        ;
    }
    match capacity.checked_mul(width) {
        Some(needed) => {
            if needed != len {
                return Err(Error::Encoding);
            }
        },
        None => {
            return Err(Error::Encoding);
        },
    }
    proof {
        assert(bytes@.subrange(0, bytes.len() as int) =~= bytes@);
    }
    array_from_bytes::<T>(&bytes, 0, capacity)
}

} // verus!
