//! The probe path: the sequence of candidate slot indices examined when
//! searching for a key. The path is a pure function of the key's digest and
//! the table's index mask — it does not depend on the table's contents, so
//! writing one slot never changes where any probe walks, only where it stops.

use vstd::prelude::*;

verus! {

/// The dwindling copy of the digest after `j` perturbation shifts of 5 bits.
pub open spec fn shifted_hash(h: u64, j: nat) -> u64
    decreases j,
{
    if j == 0 {
        h
    } else {
        shifted_hash(h, (j - 1) as nat) >> 5u64
    }
}

/// One probe step: `i * 5 + 1 + shifted`, with 64-bit wraparound, masked
/// back into the table.
pub open spec fn probe_next(i: u64, shifted: u64, mask: u64) -> u64 {
    vstd::wrapping::u64_specs::wrapping_add(
        vstd::wrapping::u64_specs::wrapping_add(vstd::wrapping::u64_specs::wrapping_mul(5, i), 1),
        shifted,
    ) & mask
}

/// The slot index examined at step `j` of the probe for digest `h`.
pub open spec fn probe_index(h: u64, mask: u64, j: nat) -> u64
    decreases j,
{
    if j == 0 {
        h & mask
    } else {
        probe_next(probe_index(h, mask, (j - 1) as nat), shifted_hash(h, (j - 1) as nat), mask)
    }
}

pub proof fn lemma_and_mask_bounded(x: u64, mask: u64)
    ensures
        (x & mask) <= mask,
{
    assert((x & mask) <= mask) by (bit_vector);
}

/// Every index on a probe path fits under the mask.
pub proof fn lemma_probe_index_bounded(h: u64, mask: u64, j: nat)
    ensures
        probe_index(h, mask, j) <= mask,
    decreases j,
{
    if j == 0 {
        lemma_and_mask_bounded(h, mask);
    } else {
        lemma_and_mask_bounded(
            vstd::wrapping::u64_specs::wrapping_add(
                vstd::wrapping::u64_specs::wrapping_add(
                    vstd::wrapping::u64_specs::wrapping_mul(5, probe_index(h, mask, (j - 1) as nat)),
                    1,
                ),
                shifted_hash(h, (j - 1) as nat),
            ),
            mask,
        );
    }
}

} // verus!
