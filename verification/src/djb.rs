//! The streaming hash accumulator: a non-cryptographic multiply-and-xor
//! digest over a byte sequence, used to distribute keys across table slots.

use vstd::prelude::*;

verus! {

/// The seed every accumulator starts from.
pub const DJB_SEED: u64 = 5381;

/// One step of the accumulator: multiply the running hash by 33 with
/// 64-bit wraparound, then xor in the next byte.
pub open spec fn djb_step(h: u64, b: u8) -> u64 {
    vstd::wrapping::u64_specs::wrapping_mul(33, h) ^ (b as u64)
}

/// The accumulator folded over a whole byte sequence, starting from `h`.
pub open spec fn djb_fold(h: u64, bytes: Seq<u8>) -> u64
    decreases bytes.len(),
{
    if bytes.len() == 0 {
        h
    } else {
        djb_step(djb_fold(h, bytes.drop_last()), bytes.last())
    }
}

/// The digest of a byte sequence under the fixed seed.
pub open spec fn djb_hash(bytes: Seq<u8>) -> u64 {
    djb_fold(DJB_SEED, bytes)
}

/// Streaming hash state. `finish` may be called at any point and does not
/// reset the state.
pub struct DJBHasher {
    hash: u64,
}

impl DJBHasher {
    /// The current digest, as a spec-level value.
    pub closed spec fn spec_digest(self) -> u64 {
        self.hash
    }

    pub fn new() -> (r: DJBHasher)
        ensures
            r.spec_digest() == DJB_SEED,
    {
        DJBHasher { hash: 5381u64 }
    }

    /// Consume a byte slice, folding each byte into the running hash.
    pub fn write(&mut self, bytes: &[u8])
        ensures
            final(self).spec_digest() == djb_fold(old(self).spec_digest(), bytes@),
    {
        let ghost h0 = self.hash;
        let n = bytes.len();
        let mut i: usize = 0;
        while i < n
            invariant
                n == bytes@.len(),
                i <= n,
                self.hash == djb_fold(h0, bytes@.take(i as int)),
            decreases n - i,
        {
            proof {
                assert(bytes@.take(i + 1).drop_last() =~= bytes@.take(i as int));
                assert(bytes@.take(i + 1).last() == bytes@[i as int]);
            }
            self.hash = 33u64.wrapping_mul(self.hash) ^ (bytes[i] as u64);
            i = i + 1;
        }
        proof {
            assert(bytes@.take(n as int) =~= bytes@);
        }
    }

    /// Yield the current digest without resetting the state.
    pub fn finish(&self) -> (r: u64)
        ensures
            r == self.spec_digest(),
    {
        self.hash
    }
}

} // verus!
