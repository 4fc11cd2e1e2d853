//! The capability a key type must supply: a stable digest under the hash
//! accumulator, and an equality test consistent with it. Keys equal at the
//! spec level hash equal, since the digest is a function of the key value.

use vstd::prelude::*;
use crate::djb::DJBHasher;
use crate::djb::djb_hash;

verus! {

/// The little-endian byte rendering of a 64-bit value, as fed to the
/// hash accumulator.
pub open spec fn u64_le_bytes(x: u64) -> Seq<u8> {
    seq![
        (x & 0xff) as u8,
        ((x >> 8) & 0xff) as u8,
        ((x >> 16) & 0xff) as u8,
        ((x >> 24) & 0xff) as u8,
        ((x >> 32) & 0xff) as u8,
        ((x >> 40) & 0xff) as u8,
        ((x >> 48) & 0xff) as u8,
        ((x >> 56) & 0xff) as u8,
    ]
}

proof fn lemma_low_byte(y: u64)
    ensures
        y & 0xff < 256,
{
    assert(y & 0xff < 256) by (bit_vector);
}

/// Digest a 64-bit value by streaming its little-endian bytes through the
/// accumulator.
pub fn hash_u64(x: u64) -> (h: u64)
    ensures
        h == djb_hash(u64_le_bytes(x)),
{
    proof {
        lemma_low_byte(x);
        lemma_low_byte(x >> 8);
        lemma_low_byte(x >> 16);
        lemma_low_byte(x >> 24);
        lemma_low_byte(x >> 32);
        lemma_low_byte(x >> 40);
        lemma_low_byte(x >> 48);
        lemma_low_byte(x >> 56);
    }
    let mut bytes: Vec<u8> = Vec::new();
    bytes.push((x & 0xff) as u8);
    bytes.push(((x >> 8) & 0xff) as u8);
    bytes.push(((x >> 16) & 0xff) as u8);
    bytes.push(((x >> 24) & 0xff) as u8);
    bytes.push(((x >> 32) & 0xff) as u8);
    bytes.push(((x >> 40) & 0xff) as u8);
    bytes.push(((x >> 48) & 0xff) as u8);
    bytes.push(((x >> 56) & 0xff) as u8);
    proof {
        assert(bytes@ =~= u64_le_bytes(x));
    }
    let mut st = DJBHasher::new();
    st.write(bytes.as_slice());
    st.finish()
}

/// What the table asks of a key: a spec-level digest, an executable digest
/// that agrees with it, and an executable equality test that agrees with
/// spec-level equality.
pub trait TableKey: Sized {
    /// The key's digest under the hash accumulator.
    spec fn hash_spec(&self) -> u64;

    /// Compute the digest.
    fn key_hash(&self) -> (h: u64)
        ensures
            h == self.hash_spec();

    /// Decide equality of two keys.
    fn key_eq(&self, other: &Self) -> (r: bool)
        ensures
            r == (self == other);
}

impl TableKey for u64 {
    open spec fn hash_spec(&self) -> u64 {
        djb_hash(u64_le_bytes(*self))
    }

    fn key_hash(&self) -> (h: u64) {
        hash_u64(*self)
    }

    fn key_eq(&self, other: &Self) -> (r: bool) {
        *self == *other
    }
}

impl TableKey for usize {
    open spec fn hash_spec(&self) -> u64 {
        djb_hash(u64_le_bytes(*self as u64))
    }

    fn key_hash(&self) -> (h: u64) {
        hash_u64(*self as u64)
    }

    fn key_eq(&self, other: &Self) -> (r: bool) {
        *self == *other
    }
}


/// A query standing for a stored key: anything that hashes and compares
/// as some key does may look that key up without constructing it. Every
/// key type queries for itself.
pub trait KeyQuery<K: TableKey>: Sized {
    /// The stored key this query stands for.
    spec fn key_spec(&self) -> K;

    /// Compute the digest of the key this query stands for.
    fn query_hash(&self) -> (h: u64)
        ensures
            h == self.key_spec().hash_spec();

    /// Decide whether this query stands for `k`.
    fn query_eq(&self, k: &K) -> (r: bool)
        ensures
            r == (self.key_spec() == *k);
}

impl<K: TableKey> KeyQuery<K> for K {
    open spec fn key_spec(&self) -> K {
        *self
    }

    fn query_hash(&self) -> (h: u64) {
        self.key_hash()
    }

    fn query_eq(&self, k: &K) -> (r: bool) {
        self.key_eq(k)
    }
}

} // verus!
