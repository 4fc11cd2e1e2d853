//! The mathematical model of the table: what a sequence of slots denotes as
//! a map, the slot counts, the well-formedness predicates, and the lemmas
//! that carry them across a single-slot write.

use vstd::prelude::*;
use crate::entry::Entry;
use crate::key::TableKey;
use crate::probe::probe_index;

verus! {

/// The probe loop's step budget, its termination measure. It is never
/// exhausted: every key the table holds is reachable well under it, and
/// the walk visits every slot of the table within it (see `cycle`), so a
/// probe always stops while the table has a free slot.
pub const PROBE_LIMIT: u64 = 0xffff_ffff_ffff_ffff;

// ---------------------------------------------------------------------
// Powers of two.

pub open spec fn spec_is_pow2(n: nat) -> bool
    decreases n,
{
    if n == 0 {
        false
    } else if n == 1 {
        true
    } else {
        n % 2 == 0 && spec_is_pow2(n / 2)
    }
}

/// The least power of two that is at least `n` (and at least 1).
pub open spec fn spec_next_pow2(n: nat) -> nat
    decreases n,
{
    if n <= 1 {
        1
    } else {
        2 * spec_next_pow2((n + 1) / 2)
    }
}

pub proof fn lemma_next_pow2_bounds(n: nat)
    ensures
        spec_is_pow2(spec_next_pow2(n)),
        spec_next_pow2(n) >= n,
        spec_next_pow2(n) >= 1,
    decreases n,
{
    if n > 1 {
        lemma_next_pow2_bounds((n + 1) / 2);
        let p = spec_next_pow2((n + 1) / 2);
        assert(spec_next_pow2(n) == 2 * p);
        assert(2 * p >= 2 * ((n + 1) / 2));
        assert(2 * ((n + 1) / 2) >= n);
        if 2 * p > 1 {
            assert((2 * p) % 2 == 0);
            assert((2 * p) / 2 == p);
        }
    }
}

pub proof fn lemma_next_pow2_least(n: nat, p: nat)
    requires
        spec_is_pow2(p),
        p >= n,
    ensures
        spec_next_pow2(n) <= p,
    decreases n,
{
    if n > 1 {
        assert(p >= 2);
        assert(p % 2 == 0);
        assert(spec_is_pow2(p / 2));
        if n % 2 == 0 {
            assert(p / 2 >= (n + 1) / 2);
        } else {
            if p == n {
                assert(p % 2 == 0 && n % 2 == 1);
                assert(false);
            }
            assert(p >= n + 1);
            assert(p / 2 >= (n + 1) / 2);
        }
        lemma_next_pow2_least((n + 1) / 2, p / 2);
    } else {
        if p == 0 {
            assert(!spec_is_pow2(0nat));
        }
    }
}

pub proof fn lemma_next_pow2_of_pow2(n: nat)
    requires
        spec_is_pow2(n),
    ensures
        spec_next_pow2(n) == n,
{
    lemma_next_pow2_bounds(n);
    lemma_next_pow2_least(n, n);
}

/// Between two powers of two there is a factor of at least two.
pub proof fn lemma_pow2_double_le(p: nat, q: nat)
    requires
        spec_is_pow2(p),
        spec_is_pow2(q),
        p < q,
    ensures
        2 * p <= q,
    decreases q,
{
    if p >= 1 && q > 1 {
        if p == 1 {
            assert(q % 2 == 0);
            assert(q >= 2);
        } else {
            lemma_pow2_double_le(p / 2, q / 2);
        }
    }
}

// ---------------------------------------------------------------------
// Counting slots.

pub open spec fn num_full<K, V>(s: Seq<Entry<K, V>>) -> nat
    decreases s.len(),
{
    if s.len() == 0 {
        0
    } else {
        num_full(s.drop_last()) + if s.last().spec_is_full() {
            1nat
        } else {
            0nat
        }
    }
}

pub open spec fn num_tomb<K, V>(s: Seq<Entry<K, V>>) -> nat
    decreases s.len(),
{
    if s.len() == 0 {
        0
    } else {
        num_tomb(s.drop_last()) + if s.last().spec_is_tomb() {
            1nat
        } else {
            0nat
        }
    }
}

pub proof fn lemma_counts_le<K, V>(s: Seq<Entry<K, V>>)
    ensures
        num_full(s) + num_tomb(s) <= s.len(),
    decreases s.len(),
{
    if s.len() > 0 {
        lemma_counts_le(s.drop_last());
    }
}

/// How the counts move when one slot is overwritten with an occupied entry.
pub proof fn lemma_update_full_counts<K, V>(s: Seq<Entry<K, V>>, i: int)
    requires
        0 <= i < s.len(),
    ensures
        forall|k: K, v: V, h: u64|
            num_full(#[trigger] s.update(i, Entry::Full(k, v, h))) == num_full(s) + if s[i].spec_is_full() {
                0nat
            } else {
                1nat
            },
        forall|k: K, v: V, h: u64|
            num_tomb(#[trigger] s.update(i, Entry::Full(k, v, h))) == num_tomb(s) - if s[i].spec_is_tomb() {
                1nat
            } else {
                0nat
            },
    decreases s.len(),
{
    assert forall|k: K, v: V, h: u64|
        num_full(#[trigger] s.update(i, Entry::Full(k, v, h))) == num_full(s) + (if s[i].spec_is_full() {
            0nat
        } else {
            1nat
        }) && num_tomb(s.update(i, Entry::Full(k, v, h))) == num_tomb(s) - (if s[i].spec_is_tomb() {
            1nat
        } else {
            0nat
        }) by {
        lemma_update_entry_counts(s, i, Entry::Full(k, v, h));
    }
}

pub proof fn lemma_update_entry_counts<K, V>(s: Seq<Entry<K, V>>, i: int, e: Entry<K, V>)
    requires
        0 <= i < s.len(),
    ensures
        num_full(s.update(i, e)) == num_full(s) - (if s[i].spec_is_full() {
            1nat
        } else {
            0nat
        }) + (if e.spec_is_full() {
            1nat
        } else {
            0nat
        }),
        num_tomb(s.update(i, e)) == num_tomb(s) - (if s[i].spec_is_tomb() {
            1nat
        } else {
            0nat
        }) + (if e.spec_is_tomb() {
            1nat
        } else {
            0nat
        }),
    decreases s.len(),
{
    let t = s.update(i, e);
    if i == s.len() - 1 {
        assert(t.drop_last() =~= s.drop_last());
        assert(t.last() == e);
    } else {
        assert(t.drop_last() =~= s.drop_last().update(i, e));
        assert(t.last() == s.last());
        lemma_update_entry_counts(s.drop_last(), i, e);
    }
}

// ---------------------------------------------------------------------
// The map a slot sequence denotes.

pub open spec fn map_of<K, V>(s: Seq<Entry<K, V>>) -> Map<K, V>
    decreases s.len(),
{
    if s.len() == 0 {
        Map::empty()
    } else {
        let m = map_of(s.drop_last());
        match s.last() {
            Entry::Full(k, v, _) => m.insert(k, v),
            _ => m,
        }
    }
}

pub proof fn lemma_map_of_contains<K, V>(s: Seq<Entry<K, V>>, k: K)
    ensures
        map_of(s).contains_key(k) <==> exists|i: int|
            0 <= i < s.len() && (#[trigger] s[i]).spec_is_full() && s[i].spec_key() == k,
    decreases s.len(),
{
    if s.len() > 0 {
        lemma_map_of_contains(s.drop_last(), k);
        let n = s.len() - 1;
        if map_of(s).contains_key(k) {
            if s[n].spec_is_full() && s[n].spec_key() == k {
            } else {
                assert(map_of(s.drop_last()).contains_key(k));
                let i = choose|i: int|
                    0 <= i < s.drop_last().len() && (#[trigger] s.drop_last()[i]).spec_is_full()
                        && s.drop_last()[i].spec_key() == k;
                assert(s[i] == s.drop_last()[i]);
            }
        }
        if exists|i: int| 0 <= i < s.len() && (#[trigger] s[i]).spec_is_full() && s[i].spec_key() == k {
            let i = choose|i: int|
                0 <= i < s.len() && (#[trigger] s[i]).spec_is_full() && s[i].spec_key() == k;
            if i < n {
                assert(s.drop_last()[i] == s[i]);
                assert(map_of(s.drop_last()).contains_key(k));
            }
        }
    }
}

/// The value the map gives an occupied slot's key, when keys are unique.
pub proof fn lemma_map_of_at<K, V>(s: Seq<Entry<K, V>>, i: int)
    requires
        0 <= i < s.len(),
        s[i].spec_is_full(),
        slots_keys_unique(s),
    ensures
        map_of(s).contains_key(s[i].spec_key()),
        map_of(s)[s[i].spec_key()] == s[i].spec_value(),
    decreases s.len(),
{
    let n = s.len() - 1;
    lemma_map_of_contains(s, s[i].spec_key());
    if i == n {
    } else {
        assert(slots_keys_unique(s.drop_last())) by {
            assert forall|a: int, b: int|
                0 <= a < s.drop_last().len() && 0 <= b < s.drop_last().len() && a != b && (#[trigger] s.drop_last()[a]).spec_is_full()
                    && (#[trigger] s.drop_last()[b]).spec_is_full() implies s.drop_last()[a].spec_key()
                != s.drop_last()[b].spec_key() by {
                assert(s.drop_last()[a] == s[a]);
                assert(s.drop_last()[b] == s[b]);
            }
        }
        assert(s.drop_last()[i] == s[i]);
        lemma_map_of_at(s.drop_last(), i);
        if s[n].spec_is_full() {
            assert(s[n].spec_key() != s[i].spec_key());
        }
    }
}

/// Overwriting slot `i` with an occupied entry for key `k` denotes exactly
/// an insert, provided `k` lives nowhere else and slot `i`, if occupied,
/// already held `k`.
pub proof fn lemma_map_of_update_one<K, V>(s: Seq<Entry<K, V>>, i: int, k: K, v: V, h: u64)
    requires
        0 <= i < s.len(),
        forall|j: int|
            0 <= j < s.len() && j != i && (#[trigger] s[j]).spec_is_full() ==> s[j].spec_key() != k,
        s[i].spec_is_full() ==> s[i].spec_key() == k,
    ensures
        map_of(s.update(i, Entry::Full(k, v, h))) == map_of(s).insert(k, v),
    decreases s.len(),
{
    let t = s.update(i, Entry::Full(k, v, h));
    let n = s.len() - 1;
    if i == n {
        assert(t.drop_last() =~= s.drop_last());
        match s.last() {
            Entry::Full(k0, v0, _) => {
                assert(k0 == k);
                assert(map_of(s.drop_last()).insert(k0, v0).insert(k, v) =~= map_of(
                    s.drop_last(),
                ).insert(k, v));
            },
            _ => {},
        }
    } else {
        assert(t.drop_last() =~= s.drop_last().update(i, Entry::Full(k, v, h)));
        assert(t.last() == s.last());
        assert forall|j: int|
            0 <= j < s.drop_last().len() && j != i && (#[trigger] s.drop_last()[j]).spec_is_full() implies s.drop_last()[j].spec_key()
            != k by {
            assert(s.drop_last()[j] == s[j]);
        }
        assert(s.drop_last()[i] == s[i]);
        lemma_map_of_update_one(s.drop_last(), i, k, v, h);
        match s.last() {
            Entry::Full(k0, v0, _) => {
                assert(k0 != k);
                assert(map_of(s.drop_last()).insert(k, v).insert(k0, v0) =~= map_of(
                    s.drop_last(),
                ).insert(k0, v0).insert(k, v));
            },
            _ => {},
        }
    }
}

/// The quantified form used when the written value is only known
/// symbolically (a value still behind a mutable borrow).
pub proof fn lemma_map_of_update<K, V>(s: Seq<Entry<K, V>>, i: int, k: K, h: u64)
    requires
        0 <= i < s.len(),
        forall|j: int|
            0 <= j < s.len() && j != i && (#[trigger] s[j]).spec_is_full() ==> s[j].spec_key() != k,
        s[i].spec_is_full() ==> s[i].spec_key() == k,
    ensures
        forall|v: V|
            map_of(#[trigger] s.update(i, Entry::Full(k, v, h))) == map_of(s).insert(k, v),
{
    assert forall|v: V|
        map_of(#[trigger] s.update(i, Entry::Full(k, v, h))) == map_of(s).insert(k, v) by {
        lemma_map_of_update_one(s, i, k, v, h);
    }
}

/// Unique keys make the live count and the map's cardinality agree.
pub proof fn lemma_len_is_card<K, V>(s: Seq<Entry<K, V>>)
    requires
        slots_keys_unique(s),
    ensures
        map_of(s).dom().finite(),
        map_of(s).dom().len() == num_full(s),
    decreases s.len(),
{
    if s.len() > 0 {
        let n = s.len() - 1;
        assert(slots_keys_unique(s.drop_last())) by {
            assert forall|a: int, b: int|
                0 <= a < s.drop_last().len() && 0 <= b < s.drop_last().len() && a != b && (#[trigger] s.drop_last()[a]).spec_is_full()
                    && (#[trigger] s.drop_last()[b]).spec_is_full() implies s.drop_last()[a].spec_key()
                != s.drop_last()[b].spec_key() by {
                assert(s.drop_last()[a] == s[a]);
                assert(s.drop_last()[b] == s[b]);
            }
        }
        lemma_len_is_card(s.drop_last());
        match s.last() {
            Entry::Full(k, v, _) => {
                lemma_map_of_contains(s.drop_last(), k);
                assert(!map_of(s.drop_last()).contains_key(k)) by {
                    if map_of(s.drop_last()).contains_key(k) {
                        let i = choose|i: int|
                            0 <= i < s.drop_last().len() && (#[trigger] s.drop_last()[i]).spec_is_full()
                                && s.drop_last()[i].spec_key() == k;
                        assert(s[i] == s.drop_last()[i]);
                        assert(s[i].spec_key() != s[n].spec_key());
                    }
                }
                assert(map_of(s).dom() =~= map_of(s.drop_last()).dom().insert(k));
            },
            _ => {},
        }
    }
}

/// A table of only empty slots denotes the empty map.
pub proof fn lemma_all_empty<K, V>(s: Seq<Entry<K, V>>)
    requires
        forall|i: int| 0 <= i < s.len() ==> (#[trigger] s[i]).spec_is_empty(),
    ensures
        map_of(s) == Map::<K, V>::empty(),
        num_full(s) == 0,
        num_tomb(s) == 0,
    decreases s.len(),
{
    if s.len() > 0 {
        assert forall|i: int| 0 <= i < s.drop_last().len() implies (#[trigger] s.drop_last()[i]).spec_is_empty() by {
            assert(s.drop_last()[i] == s[i]);
        }
        lemma_all_empty(s.drop_last());
        assert(s[s.len() - 1].spec_is_empty());
    }
}

/// Zero counts mean every slot is empty.
pub proof fn lemma_counts_zero_all_empty<K, V>(s: Seq<Entry<K, V>>)
    requires
        num_full(s) == 0,
        num_tomb(s) == 0,
    ensures
        forall|i: int| 0 <= i < s.len() ==> (#[trigger] s[i]).spec_is_empty(),
    decreases s.len(),
{
    if s.len() > 0 {
        lemma_counts_zero_all_empty(s.drop_last());
        assert forall|i: int| 0 <= i < s.len() implies (#[trigger] s[i]).spec_is_empty() by {
            if i < s.len() - 1 {
                assert(s.drop_last()[i] == s[i]);
                assert(s.drop_last()[i].spec_is_empty());
            } else {
                assert(!s.last().spec_is_full() && !s.last().spec_is_tomb());
            }
        }
    }
}

/// No slot is a tombstone when the tombstone count is zero.
pub proof fn lemma_no_tombs<K, V>(s: Seq<Entry<K, V>>)
    requires
        num_tomb(s) == 0,
    ensures
        forall|i: int| 0 <= i < s.len() ==> !(#[trigger] s[i]).spec_is_tomb(),
    decreases s.len(),
{
    if s.len() > 0 {
        lemma_no_tombs(s.drop_last());
        assert forall|i: int| 0 <= i < s.len() implies !(#[trigger] s[i]).spec_is_tomb() by {
            if i < s.len() - 1 {
                assert(s.drop_last()[i] == s[i]);
                assert(!s.drop_last()[i].spec_is_tomb());
            }
        }
    }
}

// ---------------------------------------------------------------------
// Well-formedness predicates over the slot array.

/// Every non-empty slot caches the true digest of its key.
pub open spec fn slots_hash_coherent<K: TableKey, V>(s: Seq<Entry<K, V>>) -> bool {
    forall|i: int|
        0 <= i < s.len() && !(#[trigger] s[i]).spec_is_empty() ==> s[i].spec_hash()
            == s[i].spec_key().hash_spec()
}

/// No key occupies two slots.
pub open spec fn slots_keys_unique<K, V>(s: Seq<Entry<K, V>>) -> bool {
    forall|i: int, j: int|
        0 <= i < s.len() && 0 <= j < s.len() && i != j && (#[trigger] s[i]).spec_is_full() && (
        #[trigger] s[j]).spec_is_full() ==> s[i].spec_key() != s[j].spec_key()
}

/// No slot on the probe path for `(k, h)` before step `j` stops the probe.
pub open spec fn no_match_before<K: TableKey, V>(
    s: Seq<Entry<K, V>>,
    mask: u64,
    k: K,
    h: u64,
    j: nat,
) -> bool {
    forall|j2: nat|
        j2 < j ==> !s[(#[trigger] probe_index(h, mask, j2)) as int].spec_matches(k, h)
}

/// Every occupied slot is where the probe for its key first stops, within
/// the probe budget.
pub open spec fn slots_reachable<K: TableKey, V>(s: Seq<Entry<K, V>>, mask: u64) -> bool {
    forall|i: int|
        0 <= i < s.len() && (#[trigger] s[i]).spec_is_full() ==> exists|j: nat|
            j < PROBE_LIMIT as nat && probe_index(s[i].spec_hash(), mask, j) == i as u64
                && no_match_before(s, mask, s[i].spec_key(), s[i].spec_hash(), j)
}

// ---------------------------------------------------------------------
// The pairs an iteration yields: the occupied slots, in slot order.

pub open spec fn pairs_of<K, V>(s: Seq<Entry<K, V>>) -> Seq<(K, V)>
    decreases s.len(),
{
    if s.len() == 0 {
        Seq::empty()
    } else if s[0].spec_is_full() {
        seq![(s[0].spec_key(), s[0].spec_value())] + pairs_of(s.drop_first())
    } else {
        pairs_of(s.drop_first())
    }
}

pub proof fn lemma_pairs_of_skip<K, V>(s: Seq<Entry<K, V>>, i: int)
    requires
        0 <= i < s.len(),
    ensures
        s[i].spec_is_full() ==> pairs_of(s.skip(i)) == seq![
            (s[i].spec_key(), s[i].spec_value()),
        ] + pairs_of(s.skip(i + 1)),
        !s[i].spec_is_full() ==> pairs_of(s.skip(i)) == pairs_of(s.skip(i + 1)),
{
    assert(s.skip(i).len() > 0);
    assert(s.skip(i)[0] == s[i]);
    assert(s.skip(i).drop_first() =~= s.skip(i + 1));
}

/// The front-recursion step of the live count.
pub proof fn lemma_num_full_front<K, V>(s: Seq<Entry<K, V>>)
    requires
        s.len() > 0,
    ensures
        num_full(s) == num_full(s.drop_first()) + if s[0].spec_is_full() {
            1nat
        } else {
            0nat
        },
    decreases s.len(),
{
    if s.len() == 1 {
        assert(s.drop_first() =~= Seq::<Entry<K, V>>::empty());
        assert(s.drop_last() =~= Seq::<Entry<K, V>>::empty());
        assert(s.last() == s[0]);
    } else {
        lemma_num_full_front(s.drop_last());
        assert(s.drop_last()[0] == s[0]);
        assert(s.drop_last().drop_first() =~= s.drop_first().drop_last());
        assert(s.drop_first().last() == s.last());
    }
}

/// The key projection of a pair sequence.
pub open spec fn keys_of<K, V>(ps: Seq<(K, V)>) -> Seq<K> {
    ps.map_values(|p: (K, V)| p.0)
}

/// Pair `p` of the yielded sequence is backed by an occupied slot.
pub open spec fn pair_backed<K, V>(s: Seq<Entry<K, V>>, p: int) -> bool {
    exists|i: int|
        0 <= i < s.len() && (#[trigger] s[i]).spec_is_full() && s[i].spec_key() == pairs_of(s)[p].0
            && s[i].spec_value() == pairs_of(s)[p].1
}

/// The yielded pairs are exactly the occupied slots: one pair per live
/// slot, each backed by a slot, every occupied slot represented, and — with
/// unique keys — no key twice.
pub proof fn lemma_pairs_exact<K, V>(s: Seq<Entry<K, V>>)
    requires
        slots_keys_unique(s),
    ensures
        pairs_of(s).len() == num_full(s),
        forall|p: int| 0 <= p < pairs_of(s).len() ==> #[trigger] pair_backed(s, p),
        forall|i: int|
            0 <= i < s.len() && (#[trigger] s[i]).spec_is_full() ==> exists|p: int|
                0 <= p < pairs_of(s).len() && pairs_of(s)[p] == (s[i].spec_key(), s[i].spec_value()),
        forall|p: int, q: int|
            0 <= p < q < pairs_of(s).len() ==> (#[trigger] pairs_of(s)[p]).0 != (
            #[trigger] pairs_of(s)[q]).0,
    decreases s.len(),
{
    if s.len() > 0 {
        let rest = s.drop_first();
        assert(slots_keys_unique(rest)) by {
            assert forall|a: int, b: int|
                0 <= a < rest.len() && 0 <= b < rest.len() && a != b && (#[trigger] rest[a]).spec_is_full()
                    && (#[trigger] rest[b]).spec_is_full() implies rest[a].spec_key()
                != rest[b].spec_key() by {
                assert(rest[a] == s[a + 1]);
                assert(rest[b] == s[b + 1]);
            }
        }
        lemma_pairs_exact(rest);
        lemma_num_full_front(s);
        assert forall|i: int| 0 <= i < rest.len() implies rest[i] == s[i + 1] by {}
        if s[0].spec_is_full() {
            let ps = pairs_of(s);
            assert(ps == seq![(s[0].spec_key(), s[0].spec_value())] + pairs_of(rest));
            assert forall|p: int, q: int| 0 <= p < q < ps.len() implies (#[trigger] ps[p]).0 != (
            #[trigger] ps[q]).0 by {
                if p == 0 {
                    assert(ps[q] == pairs_of(rest)[q - 1]);
                    assert(pair_backed(rest, q - 1));
                    let iq = choose|i: int|
                        0 <= i < rest.len() && (#[trigger] rest[i]).spec_is_full()
                            && rest[i].spec_key() == pairs_of(rest)[q - 1].0 && rest[i].spec_value()
                            == pairs_of(rest)[q - 1].1;
                    assert(rest[iq] == s[iq + 1]);
                } else {
                    assert(ps[p] == pairs_of(rest)[p - 1]);
                    assert(ps[q] == pairs_of(rest)[q - 1]);
                    assert(pairs_of(rest)[p - 1].0 != pairs_of(rest)[q - 1].0);
                }
            }
            assert forall|i: int| 0 <= i < s.len() && (#[trigger] s[i]).spec_is_full() implies exists|p: int|
                0 <= p < ps.len() && ps[p] == (s[i].spec_key(), s[i].spec_value()) by {
                if i == 0 {
                    assert(ps[0] == (s[0].spec_key(), s[0].spec_value()));
                } else {
                    assert(rest[i - 1] == s[i]);
                    let p = choose|p: int|
                        0 <= p < pairs_of(rest).len() && pairs_of(rest)[p] == (
                        rest[i - 1].spec_key(),
                        rest[i - 1].spec_value(),
                        );
                    assert(ps[p + 1] == pairs_of(rest)[p]);
                }
            }
            assert forall|p: int| 0 <= p < pairs_of(s).len() implies #[trigger] pair_backed(s, p) by {
                if p == 0 {
                    assert(pairs_of(s)[0] == (s[0].spec_key(), s[0].spec_value()));
                    assert(s[0].spec_is_full() && s[0].spec_key() == pairs_of(s)[0].0
                        && s[0].spec_value() == pairs_of(s)[0].1);
                } else {
                    assert(pairs_of(s)[p] == pairs_of(rest)[p - 1]);
                    assert(pair_backed(rest, p - 1));
                    let i = choose|i: int|
                        0 <= i < rest.len() && (#[trigger] rest[i]).spec_is_full()
                            && rest[i].spec_key() == pairs_of(rest)[p - 1].0 && rest[i].spec_value()
                            == pairs_of(rest)[p - 1].1;
                    assert(s[i + 1] == rest[i]);
                }
            }
        } else {
            assert(pairs_of(s) == pairs_of(rest));
            assert forall|i: int| 0 <= i < s.len() && (#[trigger] s[i]).spec_is_full() implies exists|p: int|
                0 <= p < pairs_of(s).len() && pairs_of(s)[p] == (
                s[i].spec_key(),
                s[i].spec_value(),
            ) by {
                assert(i != 0);
                assert(rest[i - 1] == s[i]);
            }
            assert forall|p: int| 0 <= p < pairs_of(s).len() implies #[trigger] pair_backed(s, p) by {
                assert(pairs_of(s)[p] == pairs_of(rest)[p]);
                assert(pair_backed(rest, p));
                let i = choose|i: int|
                    0 <= i < rest.len() && (#[trigger] rest[i]).spec_is_full() && rest[i].spec_key()
                        == pairs_of(rest)[p].0 && rest[i].spec_value() == pairs_of(rest)[p].1;
                assert(s[i + 1] == rest[i]);
            }
        }
    } else {
        assert(pairs_of(s).len() == 0);
    }
}

/// The probe stops at a single, first, step.
pub proof fn lemma_first_match_unique<K: TableKey, V>(
    s: Seq<Entry<K, V>>,
    mask: u64,
    k: K,
    h: u64,
    j1: nat,
    j2: nat,
)
    requires
        no_match_before(s, mask, k, h, j1),
        s[probe_index(h, mask, j1) as int].spec_matches(k, h),
        no_match_before(s, mask, k, h, j2),
        s[probe_index(h, mask, j2) as int].spec_matches(k, h),
    ensures
        j1 == j2,
{
    if j1 < j2 {
        assert(!s[probe_index(h, mask, j1) as int].spec_matches(k, h));
    }
    if j2 < j1 {
        assert(!s[probe_index(h, mask, j2) as int].spec_matches(k, h));
    }
}

/// A probe that stopped on a slot that is not occupied — or ran out of its
/// budget — proves the key absent.
pub proof fn lemma_not_found_absent<K: TableKey, V>(
    s: Seq<Entry<K, V>>,
    mask: u64,
    k: K,
    h: u64,
    jstop: nat,
)
    requires
        s.len() == mask as int + 1,
        slots_hash_coherent(s),
        slots_keys_unique(s),
        slots_reachable(s, mask),
        h == k.hash_spec(),
        no_match_before(s, mask, k, h, jstop),
        jstop == PROBE_LIMIT as nat || (s[probe_index(h, mask, jstop) as int].spec_matches(k, h)
            && !s[probe_index(h, mask, jstop) as int].spec_is_full()),
    ensures
        !map_of(s).contains_key(k),
{
    lemma_map_of_contains(s, k);
    if map_of(s).contains_key(k) {
        let i = choose|i: int|
            0 <= i < s.len() && (#[trigger] s[i]).spec_is_full() && s[i].spec_key() == k;
        assert(s[i].spec_hash() == k.hash_spec());
        let ji = choose|j: nat|
            j < PROBE_LIMIT as nat && probe_index(s[i].spec_hash(), mask, j) == i as u64
                && no_match_before(s, mask, s[i].spec_key(), s[i].spec_hash(), j);
        assert(s[probe_index(h, mask, ji) as int].spec_matches(k, h));
        if jstop == PROBE_LIMIT as nat {
            assert(!s[probe_index(h, mask, ji) as int].spec_matches(k, h));
        } else {
            lemma_first_match_unique(s, mask, k, h, jstop, ji);
            assert(s[probe_index(h, mask, jstop) as int].spec_is_full());
        }
    }
}

/// Writing an occupied entry at the slot where its probe first stops
/// preserves coherence, key uniqueness, and reachability — for any value.
pub proof fn lemma_update_preserves<K: TableKey, V>(
    s: Seq<Entry<K, V>>,
    mask: u64,
    r: int,
    k: K,
    h: u64,
    jr: nat,
)
    requires
        s.len() == mask as int + 1,
        0 <= r < s.len(),
        h == k.hash_spec(),
        slots_hash_coherent(s),
        slots_keys_unique(s),
        slots_reachable(s, mask),
        jr < PROBE_LIMIT as nat,
        probe_index(h, mask, jr) == r as u64,
        no_match_before(s, mask, k, h, jr),
        s[r].spec_matches(k, h),
        s[r].spec_is_full() ==> s[r].spec_key() == k && s[r].spec_hash() == h,
        !s[r].spec_is_full() ==> forall|i: int|
            0 <= i < s.len() && (#[trigger] s[i]).spec_is_full() ==> s[i].spec_key() != k,
    ensures
        forall|v: V|
            {
                let t = #[trigger] s.update(r, Entry::Full(k, v, h));
                slots_hash_coherent(t) && slots_keys_unique(t) && slots_reachable(t, mask)
            },
{
    assert forall|i: int| 0 <= i < s.len() && i != r && (#[trigger] s[i]).spec_is_full() implies s[i].spec_key()
        != k by {
        if s[r].spec_is_full() {
        } else {
        }
    }
    assert forall|v: V|
        {
            let t = #[trigger] s.update(r, Entry::Full(k, v, h));
            slots_hash_coherent(t) && slots_keys_unique(t) && slots_reachable(t, mask)
        } by {
        let t = s.update(r, Entry::Full(k, v, h));
        assert(slots_hash_coherent(t)) by {
            assert forall|i: int| 0 <= i < t.len() && !(#[trigger] t[i]).spec_is_empty() implies t[i].spec_hash()
                == t[i].spec_key().hash_spec() by {
                if i != r {
                    assert(t[i] == s[i]);
                }
            }
        }
        assert(slots_keys_unique(t)) by {
            assert forall|a: int, b: int|
                0 <= a < t.len() && 0 <= b < t.len() && a != b && (#[trigger] t[a]).spec_is_full()
                    && (#[trigger] t[b]).spec_is_full() implies t[a].spec_key() != t[b].spec_key() by {
                if a != r && b != r {
                    assert(t[a] == s[a] && t[b] == s[b]);
                } else if a == r {
                    assert(t[b] == s[b]);
                } else {
                    assert(t[a] == s[a]);
                }
            }
        }
        assert(slots_reachable(t, mask)) by {
            assert forall|i: int| 0 <= i < t.len() && (#[trigger] t[i]).spec_is_full() implies exists|j: nat|
                j < PROBE_LIMIT as nat && probe_index(t[i].spec_hash(), mask, j) == i as u64
                    && no_match_before(t, mask, t[i].spec_key(), t[i].spec_hash(), j) by {
                if i == r {
                    assert(no_match_before(t, mask, k, h, jr)) by {
                        assert forall|j2: nat| j2 < jr implies !t[(#[trigger] probe_index(
                            h,
                            mask,
                            j2,
                        )) as int].spec_matches(k, h) by {
                            let p = probe_index(h, mask, j2) as int;
                            crate::probe::lemma_probe_index_bounded(h, mask, j2);
                            if p == r {
                                assert(s[p].spec_matches(k, h));
                            } else {
                                assert(t[p] == s[p]);
                            }
                        }
                    }
                    assert(t[i].spec_key() == k && t[i].spec_hash() == h);
                } else {
                    assert(t[i] == s[i]);
                    let ji = choose|j: nat|
                        j < PROBE_LIMIT as nat && probe_index(s[i].spec_hash(), mask, j)
                            == i as u64 && no_match_before(
                            s,
                            mask,
                            s[i].spec_key(),
                            s[i].spec_hash(),
                            j,
                        );
                    assert(no_match_before(t, mask, t[i].spec_key(), t[i].spec_hash(), ji)) by {
                        assert forall|j2: nat| j2 < ji implies !t[(#[trigger] probe_index(
                            t[i].spec_hash(),
                            mask,
                            j2,
                        )) as int].spec_matches(t[i].spec_key(), t[i].spec_hash()) by {
                            let p = probe_index(t[i].spec_hash(), mask, j2) as int;
                            crate::probe::lemma_probe_index_bounded(t[i].spec_hash(), mask, j2);
                            assert(!s[p].spec_matches(s[i].spec_key(), s[i].spec_hash()));
                            if p == r {
                                assert(t[p] == Entry::Full(k, v, h));
                                assert(t[i].spec_key() != k);
                            } else {
                                assert(t[p] == s[p]);
                            }
                        }
                    }
                }
            }
        }
    }
}

} // verus!
