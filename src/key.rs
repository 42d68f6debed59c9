//! Keys and their hashing: a key is identified by a byte string, hashed
//! with `DefaultHasher` and compared byte by byte.
use std::collections::hash_map::DefaultHasher;
use std::hash::Hasher;
use vstd::prelude::*;
use vstd::std_specs::hash::DefaultHasherAdditionalSpecFns;
use vstd::string::StringSliceAdditionalSpecFns;

verus! {

/// The 64-bit digest of a key's identifying bytes: one `DefaultHasher`
/// fed those bytes in a single write.
pub open spec fn digest(bytes: Seq<u8>) -> u64 {
    DefaultHasher::spec_finish(seq![bytes])
}

/// Hashes a byte string with a fresh `DefaultHasher`.
pub fn hash_bytes(bytes: &[u8]) -> (r: u64)
    ensures
        r == digest(bytes@),
{
    let mut h = DefaultHasher::new();
    h.write(bytes);
    h.finish()
}

/// Byte-wise equality of two slices.
pub fn bytes_eq(a: &[u8], b: &[u8]) -> (r: bool)
    ensures
        r == (a@ == b@),
{
    if a.len() != b.len() {
        return false;
    }
    let mut i: usize = 0;
    while i < a.len()
        invariant
            a@.len() == b@.len(),
            0 <= i <= a@.len(),
            forall|j: int| 0 <= j < i ==> a@[j] == b@[j],
        decreases a@.len() - i,
    {
        if a[i] != b[i] {
            return false;
        }
        i = i + 1;
    }
    assert(a@ =~= b@);
    true
}

/// A type that can key a table, or look a key up.
///
/// A key is identified by a byte string: two keys are equal exactly when
/// their bytes are, and the hash of a key is the digest of its bytes. Keys
/// of different types with the same bytes therefore compare equal and hash
/// alike, which lets a borrowed form look up an owned key.
pub trait HashKey {
    /// The bytes that identify the key.
    spec fn key_bytes(&self) -> Seq<u8>;

    /// The identifying bytes, as a slice.
    fn key_slice(&self) -> (r: &[u8])
        ensures
            r@ == self.key_bytes(),
    ;
}

impl HashKey for str {
    open spec fn key_bytes(&self) -> Seq<u8> {
        self.spec_bytes()
    }

    fn key_slice(&self) -> (r: &[u8]) {
        self.as_bytes()
    }
}

impl HashKey for String {
    open spec fn key_bytes(&self) -> Seq<u8> {
        vstd::utf8::encode_utf8(self@)
    }

    fn key_slice(&self) -> (r: &[u8]) {
        self.as_str().as_bytes()
    }
}

impl<'s, T: HashKey + ?Sized> HashKey for &'s T {
    open spec fn key_bytes(&self) -> Seq<u8> {
        (**self).key_bytes()
    }

    fn key_slice(&self) -> (r: &[u8]) {
        (**self).key_slice()
    }
}

/// The hash of a key: the digest of its bytes.
pub fn key_hash<Q: HashKey + ?Sized>(k: &Q) -> (r: u64)
    ensures
        r == digest(k.key_bytes()),
{
    hash_bytes(k.key_slice())
}

/// Whether two keys, possibly of different types, are equal.
pub fn keys_equal<A: HashKey + ?Sized, B: HashKey + ?Sized>(a: &A, b: &B) -> (r: bool)
    ensures
        r == (a.key_bytes() == b.key_bytes()),
{
    bytes_eq(a.key_slice(), b.key_slice())
}

} // verus!
