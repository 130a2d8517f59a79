//! Fixed-width byte encodings: big-endian integers, booleans, and the trait
//! that keys and values implement.

use vstd::prelude::*;
use crate::error::Error;

verus! {

/// The eight bytes of `x`, most significant first.
pub open spec fn be64(x: u64) -> Seq<u8> {
    seq![
        (x >> 56) as u8,
        ((x >> 48) & 0xff) as u8,
        ((x >> 40) & 0xff) as u8,
        ((x >> 32) & 0xff) as u8,
        ((x >> 24) & 0xff) as u8,
        ((x >> 16) & 0xff) as u8,
        ((x >> 8) & 0xff) as u8,
        (x & 0xff) as u8,
    ]
}

/// The number whose big-endian bytes are the first eight of `b`.
pub open spec fn from_be64(b: Seq<u8>) -> u64 {
    ((b[0] as u64) << 56) | ((b[1] as u64) << 48) | ((b[2] as u64) << 40) | ((b[3] as u64) << 32)
        | ((b[4] as u64) << 24) | ((b[5] as u64) << 16) | ((b[6] as u64) << 8) | (b[7] as u64)
}

/// Decoding the big-endian bytes of a number gives the number back.
pub proof fn lemma_be64_round_trip(x: u64)
    ensures
        be64(x).len() == 8,
        from_be64(be64(x)) == x,
{
    let b = be64(x);
    assert(b[0] == (x >> 56) as u8);
    assert(b[7] == (x & 0xff) as u8);
    assert(((((x >> 56) as u8) as u64) << 56) | (((((x >> 48) & 0xff) as u8) as u64) << 48) | (((((x
        >> 40) & 0xff) as u8) as u64) << 40) | (((((x >> 32) & 0xff) as u8) as u64) << 32) | (((((x
        >> 24) & 0xff) as u8) as u64) << 24) | (((((x >> 16) & 0xff) as u8) as u64) << 16) | (((((x
        >> 8) & 0xff) as u8) as u64) << 8) | (((x & 0xff) as u8) as u64) == x) by (bit_vector);
}

/// Writes `x` as eight bytes, most significant first.
pub fn u64_to_be_bytes(x: u64) -> (bytes: Vec<u8>)
    ensures
        bytes@ == be64(x),
{
    let mut bytes: Vec<u8> = Vec::with_capacity(8);
    bytes.push(#[verifier::truncate] ((x >> 56) as u8));
    bytes.push(#[verifier::truncate] (((x >> 48) & 0xff) as u8));
    bytes.push(#[verifier::truncate] (((x >> 40) & 0xff) as u8));
    bytes.push(#[verifier::truncate] (((x >> 32) & 0xff) as u8));
    bytes.push(#[verifier::truncate] (((x >> 24) & 0xff) as u8));
    bytes.push(#[verifier::truncate] (((x >> 16) & 0xff) as u8));
    bytes.push(#[verifier::truncate] (((x >> 8) & 0xff) as u8));
    bytes.push(#[verifier::truncate] ((x & 0xff) as u8));
    assert(bytes@ =~= be64(x));
    bytes
}

/// Reads the number that the eight bytes at `start` hold, most significant first.
pub fn u64_from_be_bytes(bytes: &Vec<u8>, start: usize) -> (x: u64)
    requires
        start + 8 <= bytes.len(),
    ensures
        x == from_be64(bytes@.subrange(start as int, start + 8)),
{
    let x = ((bytes[start] as u64) << 56) | ((bytes[start + 1] as u64) << 48) | ((bytes[start
        + 2] as u64) << 40) | ((bytes[start + 3] as u64) << 32) | ((bytes[start + 4] as u64) << 24)
        | ((bytes[start + 5] as u64) << 16) | ((bytes[start + 6] as u64) << 8) | (bytes[start
        + 7] as u64);
    x
}

/// Copies `len` bytes of `bytes`, from `start` on.
pub fn copy_range(bytes: &Vec<u8>, start: usize, len: usize) -> (out: Vec<u8>)
    requires
        start + len <= bytes.len(),
    ensures
        out@ == bytes@.subrange(start as int, start + len),
{
    let mut out: Vec<u8> = Vec::with_capacity(len);
    let mut i: usize = 0;
    while i < len
        invariant
            i <= len,
            start + len <= bytes.len(),
            out@ == bytes@.subrange(start as int, start + i),
        decreases len - i,
    {
        out.push(bytes[start + i]);
        i += 1;
        assert(out@ =~= bytes@.subrange(start as int, start + i));
    }
    out
}

/// Appends the bytes of `src` to `dst`.
pub fn append_bytes(dst: &mut Vec<u8>, src: &Vec<u8>)
    ensures
        final(dst)@ == old(dst)@ + src@,
{
    let mut i: usize = 0;
    while i < src.len()
        invariant
            i <= src.len(),
            dst@ == old(dst)@ + src@.subrange(0, i as int),
        decreases src.len() - i,
    {
        dst.push(src[i]);
        i += 1;
        assert(dst@ =~= old(dst)@ + src@.subrange(0, i as int));
    }
    assert(src@.subrange(0, src.len() as int) =~= src@);
}

/// Appends `count` zero bytes to `dst`.
pub fn append_zeros(dst: &mut Vec<u8>, count: usize)
    ensures
        final(dst)@ == old(dst)@ + Seq::new(count as nat, |i: int| 0u8),
{
    let mut i: usize = 0;
    while i < count
        invariant
            i <= count,
            dst@ == old(dst)@ + Seq::new(i as nat, |i: int| 0u8),
        decreases count - i,
    {
        dst.push(0u8);
        i += 1;
        assert(dst@ =~= old(dst)@ + Seq::new(i as nat, |i: int| 0u8));
    }
}

/// A type with a fixed-width byte encoding.
///
/// `encoding` and `decoding` say what the bytes of a value are and which value a
/// byte string stands for; the two laws tie them together, and the executable
/// methods compute them.
pub trait BytesExtension: Sized {
    /// The width of every encoding, in bytes.
    spec fn byte_size() -> nat;

    /// The bytes of a value.
    spec fn encoding(&self) -> Seq<u8>;

    /// The value that a byte string stands for, if it stands for one.
    spec fn decoding(bytes: Seq<u8>) -> Option<Self>;

    /// An encoding has the fixed width and decodes to the value it came from.
    proof fn lemma_round_trip(&self)
        ensures
            self.encoding().len() == Self::byte_size(),
            Self::decoding(self.encoding()) == Some(*self),
    ;

    /// Only byte strings of the fixed width stand for a value.
    proof fn lemma_decoding_width(bytes: Seq<u8>)
        ensures
            Self::decoding(bytes) is Some ==> bytes.len() == Self::byte_size(),
    ;

    /// The width of every encoding, in bytes.
    fn get_byte_size() -> (n: usize)
        ensures
            n == Self::byte_size(),
    ;

    /// Encodes the value.
    fn to_bytes(&self) -> (bytes: Vec<u8>)
        ensures
            bytes@ == self.encoding(),
    ;

    /// Replaces the value by the one that `bytes` stands for; where it stands
    /// for none the value stays and the error says so.
    fn from_bytes(&mut self, bytes: Vec<u8>) -> (r: Result<(), Error>)
        ensures
            match Self::decoding(bytes@) {
                Some(v) => r is Ok && *final(self) == v,
                None => r == Err::<(), Error>(Error::Encoding) && *final(self) == *old(self),
            },
    ;

    /// Decodes a value.
    fn new_from_bytes(bytes: Vec<u8>) -> (r: Result<Self, Error>)
        ensures
            match Self::decoding(bytes@) {
                Some(v) => r == Ok::<Self, Error>(v),
                None => r == Err::<Self, Error>(Error::Encoding),
            },
    ;
}

impl BytesExtension for bool {
    open spec fn byte_size() -> nat {
        1
    }

    open spec fn encoding(&self) -> Seq<u8> {
        seq![if *self { 1u8 } else { 0u8 }]
    }

    open spec fn decoding(bytes: Seq<u8>) -> Option<Self> {
        if bytes.len() == 1 {
            Some(bytes[0] != 0)
        } else {
            None
        }
    }

    proof fn lemma_round_trip(&self) {
    }

    proof fn lemma_decoding_width(bytes: Seq<u8>) {
    }

    fn get_byte_size() -> (n: usize) {
        1
    }

    fn to_bytes(&self) -> (bytes: Vec<u8>) {
        let mut bytes: Vec<u8> = Vec::new();
        bytes.push(if *self { 1u8 } else { 0u8 });
        assert(bytes@ =~= self.encoding());
        bytes
    }

    fn from_bytes(&mut self, bytes: Vec<u8>) -> (r: Result<(), Error>) {
        if bytes.len() != 1 {
            return Err(Error::Encoding);
        }
        *self = bytes[0] != 0;
        Ok(())
    }

    fn new_from_bytes(bytes: Vec<u8>) -> (r: Result<Self, Error>) {
        if bytes.len() != 1 {
            return Err(Error::Encoding);
        }
        Ok(bytes[0] != 0)
    }
}

impl BytesExtension for u64 {
    open spec fn byte_size() -> nat {
        8
    }

    open spec fn encoding(&self) -> Seq<u8> {
        be64(*self)
    }

    open spec fn decoding(bytes: Seq<u8>) -> Option<Self> {
        if bytes.len() == 8 {
            Some(from_be64(bytes))
        } else {
            None
        }
    }

    proof fn lemma_round_trip(&self) {
        lemma_be64_round_trip(*self);
    }

    proof fn lemma_decoding_width(bytes: Seq<u8>) {
    }

    fn get_byte_size() -> (n: usize) {
        8
    }

    fn to_bytes(&self) -> (bytes: Vec<u8>) {
        u64_to_be_bytes(*self)
    }

    fn from_bytes(&mut self, bytes: Vec<u8>) -> (r: Result<(), Error>) {
        if bytes.len() != 8 {
            return Err(Error::Encoding);
        }
        assert(bytes@.subrange(0, 8) =~= bytes@);
        *self = u64_from_be_bytes(&bytes, 0);
        Ok(())
    }

    fn new_from_bytes(bytes: Vec<u8>) -> (r: Result<Self, Error>) {
        if bytes.len() != 8 {
            return Err(Error::Encoding);
        }
        assert(bytes@.subrange(0, 8) =~= bytes@);
        Ok(u64_from_be_bytes(&bytes, 0))
    }
}

/// The 64-bit pattern of `x` in two's complement.
pub open spec fn i64_bits(x: i64) -> u64 {
    x as u64
}

/// The signed number with the 64-bit pattern `x`.
pub open spec fn i64_of_bits(x: u64) -> i64 {
    x as i64
}

/// A signed number and its bit pattern determine each other.
pub proof fn lemma_i64_bits(x: i64)
    ensures
        i64_of_bits(i64_bits(x)) == x,
{
    assert((x as u64) as i64 == x) by (bit_vector);
}

impl BytesExtension for i64 {
    open spec fn byte_size() -> nat {
        8
    }

    open spec fn encoding(&self) -> Seq<u8> {
        be64(i64_bits(*self))
    }

    open spec fn decoding(bytes: Seq<u8>) -> Option<Self> {
        if bytes.len() == 8 {
            Some(i64_of_bits(from_be64(bytes)))
        } else {
            None
        }
    }

    proof fn lemma_round_trip(&self) {
        lemma_be64_round_trip(i64_bits(*self));
        lemma_i64_bits(*self);
    }

    proof fn lemma_decoding_width(bytes: Seq<u8>) {
    }

    fn get_byte_size() -> (n: usize) {
        8
    }

    fn to_bytes(&self) -> (bytes: Vec<u8>) {
        u64_to_be_bytes(#[verifier::truncate] (*self as u64))
    }

    fn from_bytes(&mut self, bytes: Vec<u8>) -> (r: Result<(), Error>) {
        if bytes.len() != 8 {
            return Err(Error::Encoding);
        }
        assert(bytes@.subrange(0, 8) =~= bytes@);
        *self = #[verifier::truncate] (u64_from_be_bytes(&bytes, 0) as i64);
        Ok(())
    }

    fn new_from_bytes(bytes: Vec<u8>) -> (r: Result<Self, Error>) {
        if bytes.len() != 8 {
            return Err(Error::Encoding);
        }
        assert(bytes@.subrange(0, 8) =~= bytes@);
        Ok(#[verifier::truncate] (u64_from_be_bytes(&bytes, 0) as i64))
    }
}

impl BytesExtension for usize {
    open spec fn byte_size() -> nat {
        8
    }

    open spec fn encoding(&self) -> Seq<u8> {
        be64(*self as u64)
    }

    open spec fn decoding(bytes: Seq<u8>) -> Option<Self> {
        if bytes.len() == 8 && from_be64(bytes) <= usize::MAX {
            Some(from_be64(bytes) as usize)
        } else {
            None
        }
    }

    proof fn lemma_round_trip(&self) {
        lemma_be64_round_trip(*self as u64);
    }

    proof fn lemma_decoding_width(bytes: Seq<u8>) {
    }

    fn get_byte_size() -> (n: usize) {
        8
    }

    fn to_bytes(&self) -> (bytes: Vec<u8>) {
        u64_to_be_bytes(*self as u64)
    }

    fn from_bytes(&mut self, bytes: Vec<u8>) -> (r: Result<(), Error>) {
        if bytes.len() != 8 {
            return Err(Error::Encoding);
        }
        assert(bytes@.subrange(0, 8) =~= bytes@);
        let x = u64_from_be_bytes(&bytes, 0);
        if x > usize::MAX as u64 {
            return Err(Error::Encoding);
        }
        *self = x as usize;
        Ok(())
    }

    fn new_from_bytes(bytes: Vec<u8>) -> (r: Result<Self, Error>) {
        if bytes.len() != 8 {
            return Err(Error::Encoding);
        }
        assert(bytes@.subrange(0, 8) =~= bytes@);
        let x = u64_from_be_bytes(&bytes, 0);
        if x > usize::MAX as u64 {
            return Err(Error::Encoding);
        }
        Ok(x as usize)
    }
}

} // verus!
