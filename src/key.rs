//! Keys of the table: each key is identified by its byte encoding, which the
//! table both hashes and compares.
use std::collections::hash_map::DefaultHasher;
use std::hash::Hasher;
use vstd::prelude::*;
use vstd::std_specs::hash::DefaultHasherAdditionalSpecFns;
use vstd::string::StringSliceAdditionalSpecFns;

verus! {

/// A type whose values can key a table. Two keys are the same key exactly
/// when their byte encodings are equal.
pub trait TableKey: Sized {
    /// The byte encoding of the key.
    spec fn key_bytes(&self) -> Seq<u8>;

    /// Computes the byte encoding of the key.
    fn to_key_bytes(&self) -> (r: Vec<u8>)
        ensures
            r@ == self.key_bytes(),
    ;
}

/// The hash of a byte encoding: what `DefaultHasher` yields after a single
/// write of those bytes.
pub open spec fn bytes_hash(b: Seq<u8>) -> u64 {
    DefaultHasher::spec_finish(Seq::empty().push(b))
}

/// Hashes a byte encoding with a freshly made `DefaultHasher`, which is
/// seeded the same way in every process.
pub fn hash_bytes(b: &Vec<u8>) -> (r: u64)
    ensures
        r == bytes_hash(b@),
{
    let mut hasher = DefaultHasher::new();
    hasher.write(b.as_slice());
    hasher.finish()
}

/// Compares two byte strings element by element.
pub fn bytes_equal(a: &Vec<u8>, b: &Vec<u8>) -> (r: bool)
    ensures
        r == (a@ == b@),
{
    if a.len() != b.len() {
        return false;
    }
    let mut i: usize = 0;
    while i < a.len()
        invariant
            a.len() == b.len(),
            i <= a.len(),
            forall|j: int| 0 <= j < i ==> a@[j] == b@[j],
        decreases a.len() - i,
    {
        if a[i] != b[i] {
            return false;
        }
        i = i + 1;
    }
    assert(a@ =~= b@);
    true
}

/// The little-endian encoding of a 32-bit word.
pub open spec fn le_bytes_u32(x: u32) -> Seq<u8> {
    seq![
        (x % 256) as u8,
        (x / 256 % 256) as u8,
        (x / 65536 % 256) as u8,
        (x / 16777216 % 256) as u8,
    ]
}

/// The little-endian encoding of a 64-bit word.
pub open spec fn le_bytes_u64(x: u64) -> Seq<u8> {
    le_bytes_u32((x % 4294967296) as u32) + le_bytes_u32((x / 4294967296) as u32)
}

fn push_le_u32(out: &mut Vec<u8>, x: u32)
    ensures
        final(out)@ == old(out)@ + le_bytes_u32(x),
{
    out.push((x % 256) as u8);
    out.push((x / 256 % 256) as u8);
    out.push((x / 65536 % 256) as u8);
    out.push((x / 16777216 % 256) as u8);
    assert(final(out)@ =~= old(out)@ + le_bytes_u32(x));
}

fn le_u64(x: u64) -> (r: Vec<u8>)
    ensures
        r@ == le_bytes_u64(x),
{
    let mut out: Vec<u8> = Vec::new();
    push_le_u32(&mut out, (x % 4294967296) as u32);
    push_le_u32(&mut out, (x / 4294967296) as u32);
    assert(out@ =~= le_bytes_u64(x));
    out
}

impl TableKey for u32 {
    open spec fn key_bytes(&self) -> Seq<u8> {
        le_bytes_u32(*self)
    }

    fn to_key_bytes(&self) -> (r: Vec<u8>) {
        let mut out: Vec<u8> = Vec::new();
        push_le_u32(&mut out, *self);
        assert(out@ =~= le_bytes_u32(*self));
        out
    }
}

impl TableKey for i32 {
    open spec fn key_bytes(&self) -> Seq<u8> {
        le_bytes_u32(*self as u32)
    }

    fn to_key_bytes(&self) -> (r: Vec<u8>) {
        let mut out: Vec<u8> = Vec::new();
        push_le_u32(&mut out, *self as u32);
        assert(out@ =~= le_bytes_u32(*self as u32));
        out
    }
}

impl TableKey for u64 {
    open spec fn key_bytes(&self) -> Seq<u8> {
        le_bytes_u64(*self)
    }

    fn to_key_bytes(&self) -> (r: Vec<u8>) {
        le_u64(*self)
    }
}

impl TableKey for i64 {
    open spec fn key_bytes(&self) -> Seq<u8> {
        le_bytes_u64(*self as u64)
    }

    fn to_key_bytes(&self) -> (r: Vec<u8>) {
        le_u64(*self as u64)
    }
}

impl<'a> TableKey for &'a str {
    open spec fn key_bytes(&self) -> Seq<u8> {
        (**self).spec_bytes()
    }

    fn to_key_bytes(&self) -> (r: Vec<u8>) {
        vstd::slice::slice_to_vec(self.as_bytes())
    }
}

} // verus!
