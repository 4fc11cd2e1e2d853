//! The table engine: an open-addressing map over tri-state slots, with
//! perturbation-based probing, a doubling growth policy, lazy sequence
//! views over the occupied slots, and a set wrapper.
//!
//! The probe loop carries an explicit step budget, `PROBE_LIMIT`, as its
//! termination measure. The budget is never exhausted: every key the
//! table holds is reachable within it (part of well-formedness), and the
//! walk provably visits every slot of the table — so it stops on a free
//! slot whenever the table has one, which the growth policy guarantees at
//! every insertion (see `cycle`).

use vstd::prelude::*;
use vstd::pervasive::VecAdditionalExecFns;
use crate::entry::Entry;
use crate::key::TableKey;
use crate::key::KeyQuery;
use crate::probe::probe_index;
use crate::probe::shifted_hash;
use crate::probe::probe_next;
use crate::probe::lemma_and_mask_bounded;
use crate::probe::lemma_probe_index_bounded;
use crate::model::PROBE_LIMIT;
use crate::model::spec_is_pow2;
use crate::model::spec_next_pow2;
use crate::model::lemma_next_pow2_bounds;
use crate::model::lemma_next_pow2_least;
use crate::model::lemma_next_pow2_of_pow2;
use crate::model::lemma_pow2_double_le;
use crate::model::num_full;
use crate::model::num_tomb;
use crate::model::map_of;
use crate::model::lemma_counts_le;
use crate::model::lemma_update_entry_counts;
use crate::model::lemma_update_full_counts;
use crate::model::lemma_map_of_contains;
use crate::model::lemma_map_of_at;
use crate::model::lemma_map_of_update_one;
use crate::model::lemma_map_of_update;
use crate::model::lemma_len_is_card;
use crate::model::lemma_all_empty;
use crate::model::lemma_no_tombs;
use crate::model::slots_hash_coherent;
use crate::model::slots_keys_unique;
use crate::model::no_match_before;
use crate::model::slots_reachable;
use crate::model::lemma_not_found_absent;
use crate::model::lemma_update_preserves;
use crate::model::pairs_of;
use crate::model::keys_of;
use crate::model::pair_backed;
use crate::model::lemma_pairs_of_skip;
use crate::model::lemma_pairs_exact;
use crate::model::lemma_num_full_front;

verus! {

/// The open-addressing map: a flat array of slots plus bookkeeping.
pub struct HashMap<K, V> {
    table: Vec<Entry<K, V>>,
    capacity: usize,
    mask: u64,
    length: usize,
    ghosts: usize,
}

impl<K: TableKey, V> View for HashMap<K, V> {
    type V = Map<K, V>;

    closed spec fn view(&self) -> Map<K, V> {
        map_of(self.table@)
    }
}

impl<K: TableKey, V> HashMap<K, V> {
    /// The number of live entries.
    pub closed spec fn spec_len(self) -> usize {
        self.length
    }

    /// The slot count of the backing array.
    pub closed spec fn spec_capacity(self) -> usize {
        self.capacity
    }

    /// Well-formedness: the backing array has `capacity` slots, capacity is
    /// a power of two with `mask` one below it, the counters count, every
    /// cached digest is true, no key sits in two slots, no tombstones exist
    /// (there is no removal operation to create one), and every occupied
    /// slot is where the probe for its key first stops, within the probe
    /// budget.
    pub closed spec fn wf(self) -> bool {
        &&& self.table@.len() == self.capacity
        &&& spec_is_pow2(self.capacity as nat)
        &&& self.mask as int == self.capacity - 1
        &&& self.length == num_full(self.table@)
        &&& self.ghosts == num_tomb(self.table@)
        &&& num_tomb(self.table@) == 0
        &&& slots_hash_coherent(self.table@)
        &&& slots_keys_unique(self.table@)
        &&& slots_reachable(self.table@, self.mask)
    }

    pub fn new() -> (r: HashMap<K, V>)
        ensures
            r.wf(),
            r@ == Map::<K, V>::empty(),
            r.spec_len() == 0,
            r.spec_capacity() == 8,
    {
        let r = Self::with_capacity(8);
        proof {
            assert(spec_next_pow2(8) == 8) by {
                assert(spec_next_pow2(1) == 1);
                assert(spec_next_pow2(2) == 2);
                assert(spec_next_pow2(3) == 4);
                assert(spec_next_pow2(4) == 4);
                assert(spec_next_pow2(5) == 8);
                assert(spec_next_pow2(8) == 8);
            }
        }
        r
    }

    /// Build an empty table whose capacity is `sz` rounded up to the next
    /// power of two (at least one slot).
    pub fn with_capacity(sz: usize) -> (r: HashMap<K, V>)
        requires
            sz <= usize::MAX / 2 + 1,
        ensures
            r.wf(),
            r@ == Map::<K, V>::empty(),
            r.spec_len() == 0,
            r.spec_capacity() == spec_next_pow2(sz as nat),
    {
        proof {
            lemma_next_pow2_bounds(sz as nat);
        }
        let mut capacity: usize = 1;
        while capacity < sz
            invariant
                1 <= capacity,
                sz <= usize::MAX / 2 + 1,
                spec_is_pow2(capacity as nat),
                capacity as nat <= spec_next_pow2(sz as nat),
            decreases 2 * sz - capacity,
        {
            proof {
                lemma_next_pow2_bounds(sz as nat);
                lemma_pow2_double_le(capacity as nat, spec_next_pow2(sz as nat));
            }
            capacity = capacity * 2;
        }
        proof {
            lemma_next_pow2_least(sz as nat, capacity as nat);
        }
        let mut table: Vec<Entry<K, V>> = Vec::new();
        let mut i: usize = 0;
        while i < capacity
            invariant
                i <= capacity,
                table@.len() == i,
                forall|j: int| 0 <= j < i ==> (#[trigger] table@[j]).spec_is_empty(),
            decreases capacity - i,
        {
            table.push(Entry::Empty);
            i = i + 1;
        }
        proof {
            lemma_all_empty(table@);
        }
        HashMap { table, capacity, mask: (capacity as u64) - 1, length: 0, ghosts: 0 }
    }

    pub fn capacity(&self) -> (r: usize)
        requires
            self.wf(),
        ensures
            r == self.spec_capacity(),
            spec_is_pow2(r as nat),
    {
        self.capacity
    }

    pub fn len(&self) -> (r: usize)
        requires
            self.wf(),
        ensures
            r == self.spec_len(),
            r as nat == self@.dom().len(),
    {
        proof {
            lemma_len_is_card(self.table@);
        }
        self.length
    }

    /// Reset every slot to empty without changing the capacity.
    pub fn clear(&mut self)
        requires
            old(self).wf(),
        ensures
            final(self).wf(),
            final(self)@ == Map::<K, V>::empty(),
            final(self).spec_len() == 0,
            final(self).spec_capacity() == old(self).spec_capacity(),
    {
        let n = self.table.len();
        let mut i: usize = 0;
        while i < n
            invariant
                i <= n,
                self.table@.len() == n,
                self.capacity == old(self).capacity,
                self.mask == old(self).mask,
                self.length == old(self).length,
                self.ghosts == old(self).ghosts,
                forall|j: int| 0 <= j < i ==> (#[trigger] self.table@[j]).spec_is_empty(),
            decreases n - i,
        {
            self.table.set(i, Entry::Empty);
            i = i + 1;
        }
        self.length = 0;
        self.ghosts = 0;
        proof {
            lemma_all_empty(self.table@);
        }
    }

    /// Walk the probe path for `(key, hash)` until a slot stops the probe,
    /// or the step budget runs out (`None` — ruled out at every call site
    /// by `cycle::lemma_probe_finds_slot` while a free slot exists). The
    /// returned slot is where the first stop happened, preferring an
    /// earlier tombstone for reuse when the stop was not on an occupied
    /// slot.
    fn probe<Q: KeyQuery<K>>(&self, key: &Q, hash: u64) -> (r: Option<usize>)
        requires
            self.wf(),
        ensures
            match r {
                Some(i) => {
                    &&& i < self.table@.len()
                    &&& self.table@[i as int].spec_matches(key.key_spec(), hash)
                    &&& exists|j: nat|
                        j < PROBE_LIMIT as nat && probe_index(hash, self.mask, j) == i as u64
                            && no_match_before(self.table@, self.mask, key.key_spec(), hash, j)
                },
                None => no_match_before(
                    self.table@,
                    self.mask,
                    key.key_spec(),
                    hash,
                    PROBE_LIMIT as nat,
                ),
            },
    {
        let mask = self.mask;
        let mut shifted: u64 = hash;
        let mut free: Option<usize> = None;
        proof {
            lemma_and_mask_bounded(hash, mask);
            lemma_no_tombs(self.table@);
        }
        let mut i: usize = (hash & mask) as usize;
        let mut steps: u64 = 0;
        while steps < PROBE_LIMIT
            invariant
                self.wf(),
                mask == self.mask,
                steps <= PROBE_LIMIT,
                i < self.table@.len(),
                i as u64 == probe_index(hash, mask, steps as nat),
                shifted == shifted_hash(hash, steps as nat),
                no_match_before(self.table@, mask, key.key_spec(), hash, steps as nat),
                free.is_none(),
            decreases PROBE_LIMIT - steps,
        {
            if self.table[i].matches(key, hash) {
                if self.table[i].is_full() || free.is_none() {
                    return Some(i);
                } else {
                    // tombstone reuse point; unreachable while no removal
                    // operation exists to create a tombstone
                    proof {
                        assert(false);
                    }
                    return free;
                }
            }
            if free.is_none() && self.table[i].is_ghost() {
                proof {
                    lemma_no_tombs(self.table@);
                    assert(false);
                }
                free = Some(i);
            }
            let step_u64: u64 = 5u64.wrapping_mul(i as u64).wrapping_add(1u64).wrapping_add(
                shifted,
            );
            let next: u64 = step_u64 & mask;
            proof {
                lemma_and_mask_bounded(step_u64, mask);
                assert(probe_index(hash, mask, (steps + 1) as nat) == probe_next(
                    probe_index(hash, mask, steps as nat),
                    shifted_hash(hash, steps as nat),
                    mask,
                ));
                assert(shifted_hash(hash, (steps + 1) as nat) == shifted_hash(
                    hash,
                    steps as nat,
                ) >> 5u64);
            }
            i = next as usize;
            shifted = shifted >> 5u64;
            steps = steps + 1;
        }
        None
    }

    /// The probe walk for a borrowed query key; same path, same stops.
    fn probe_equiv<Q: KeyQuery<K>>(&self, key: &Q, hash: u64) -> (r: Option<usize>)
        requires
            self.wf(),
        ensures
            match r {
                Some(i) => {
                    &&& i < self.table@.len()
                    &&& self.table@[i as int].spec_matches(key.key_spec(), hash)
                    &&& exists|j: nat|
                        j < PROBE_LIMIT as nat && probe_index(hash, self.mask, j) == i as u64
                            && no_match_before(self.table@, self.mask, key.key_spec(), hash, j)
                },
                None => no_match_before(
                    self.table@,
                    self.mask,
                    key.key_spec(),
                    hash,
                    PROBE_LIMIT as nat,
                ),
            },
    {
        self.probe(key, hash)
    }

    /// Place `(key, value)` at the slot the probe chooses, carrying the
    /// key's precomputed digest. `Err` hands the pair back untouched with
    /// the table unchanged; the last clause shows that cannot happen while
    /// the table has a free slot, which every caller guarantees.
    fn swap_with_hash(&mut self, key: K, hash: u64, value: V) -> (r: Result<Option<V>, (K, V)>)
        requires
            old(self).wf(),
            hash == key.hash_spec(),
        ensures
            final(self).wf(),
            final(self).spec_capacity() == old(self).spec_capacity(),
            final(self).mask == old(self).mask,
            match r {
                Result::Ok(prev) => {
                    &&& final(self)@ == old(self)@.insert(key, value)
                    &&& prev == if old(self)@.contains_key(key) {
                        Option::Some(old(self)@[key])
                    } else {
                        Option::<V>::None
                    }
                    &&& final(self).spec_len() == old(self).spec_len() + (if old(self)@.contains_key(key) { 0int } else { 1int })
                    &&& exists|j: nat|
                        j < PROBE_LIMIT as nat && no_match_before(
                            old(self).table@,
                            old(self).mask,
                            key,
                            hash,
                            j,
                        ) && old(self).table@[probe_index(hash, old(self).mask, j) as int].spec_matches(
                            key,
                            hash,
                        ) && final(self).table@ == old(self).table@.update(
                            probe_index(hash, old(self).mask, j) as int,
                            Entry::Full(key, value, hash),
                        )
                },
                Result::Err(kv) => {
                    &&& *final(self) == *old(self)
                    &&& kv == (key, value)
                    &&& !old(self)@.contains_key(key)
                },
            },
            num_full(old(self).table@) < old(self).spec_capacity() ==> r is Ok,
    {
        let ghost t0 = self.table@;
        let ghost gkey = key;
        match self.probe(&key, hash) {
            None => {
                proof {
                    lemma_not_found_absent(t0, self.mask, gkey, hash, PROBE_LIMIT as nat);
                    // a table with a free slot always stops the probe
                    if num_full(t0) < self.capacity {
                        crate::cycle::lemma_probe_finds_slot(t0, self.mask, gkey, hash);
                        let jx = choose|j: nat|
                            j < PROBE_LIMIT as nat && t0[(#[trigger] probe_index(
                                hash,
                                self.mask,
                                j,
                            )) as int].spec_matches(gkey, hash);
                        assert(!t0[probe_index(hash, self.mask, jx) as int].spec_matches(
                            gkey,
                            hash,
                        ));
                        assert(false);
                    }
                }
                Err((key, value))
            },
            Some(i) => {
                proof {
                    lemma_probe_index_bounded(hash, self.mask, choose|j: nat|
                        j < PROBE_LIMIT as nat && probe_index(hash, self.mask, j) == i as u64
                            && no_match_before(t0, self.mask, gkey, hash, j));
                }
                let ghost jr = choose|j: nat|
                    j < PROBE_LIMIT as nat && probe_index(hash, self.mask, j) == i as u64
                        && no_match_before(t0, self.mask, gkey, hash, j);
                if self.table[i].is_full() {
                    let mut e = Entry::Full(key, value, hash);
                    self.table.set_and_swap(i, &mut e);
                    proof {
                        assert(t0[i as int].spec_key() == gkey);
                        lemma_map_of_at(t0, i as int);
                        lemma_map_of_update_one(t0, i as int, gkey, value, hash);
                        lemma_update_entry_counts(t0, i as int, Entry::Full(gkey, value, hash));
                        lemma_update_preserves(t0, self.mask, i as int, gkey, hash, jr);
                    }
                    match e {
                        Entry::Full(_, v0, _) => Ok(Some(v0)),
                        _ => {
                            proof {
                                assert(false);
                            }
                            Ok(None)
                        },
                    }
                } else if self.table[i].is_ghost() {
                    // tombstone reuse: write in place, trading a tombstone
                    // for a live entry. Unreachable while no removal
                    // operation exists to create a tombstone.
                    proof {
                        lemma_no_tombs(t0);
                        assert(false);
                    }
                    self.table.set(i, Entry::Full(key, value, hash));
                    self.length = self.length + 1;
                    self.ghosts = self.ghosts - 1;
                    Ok(None)
                } else {
                    proof {
                        lemma_not_found_absent(t0, self.mask, gkey, hash, jr);
                        lemma_map_of_contains(t0, gkey);
                        lemma_map_of_update_one(t0, i as int, gkey, value, hash);
                        lemma_update_entry_counts(t0, i as int, Entry::Full(gkey, value, hash));
                        lemma_update_preserves(t0, self.mask, i as int, gkey, hash, jr);
                        lemma_counts_le(t0.update(i as int, Entry::Full(gkey, value, hash)));
                    }
                    self.table.set(i, Entry::Full(key, value, hash));
                    self.length = self.length + 1;
                    Ok(None)
                }
            },
        }
    }

    /// Rebuild the table at `new_capacity` (rounded up to a power of two),
    /// reinserting every occupied entry with its cached digest and
    /// discarding everything else; every tombstone would vanish here. The
    /// fresh table always has a free slot for each reinserted entry, so
    /// every placement succeeds.
    #[verifier::loop_isolation(false)]
    fn do_expand(&mut self, new_capacity: usize)
        requires
            old(self).wf(),
            1 <= new_capacity <= usize::MAX / 2 + 1,
            num_full(old(self).table@) < spec_next_pow2(new_capacity as nat),
        ensures
            final(self).wf(),
            final(self)@ == old(self)@,
            final(self).spec_capacity() == spec_next_pow2(new_capacity as nat),
            final(self).spec_len() == old(self).spec_len(),
    {
        let ghost t0 = self.table@;
        let mut new_tbl: HashMap<K, V> = HashMap::with_capacity(new_capacity);
        let n = self.table.len();
        proof {
            assert(t0.skip(0) =~= t0);
        }
        let mut i2: usize = 0;
        while i2 < n
            invariant
                old(self).wf(),
                n == t0.len(),
                i2 <= n,
                self.table@.len() == n,
                self.capacity == old(self).capacity,
                self.mask == old(self).mask,
                self.length == old(self).length,
                self.ghosts == old(self).ghosts,
                forall|m: int| i2 <= m < n ==> self.table@[m] == t0[m],
                new_tbl.wf(),
                new_tbl.spec_capacity() == spec_next_pow2(new_capacity as nat),
                new_tbl@ == map_of(t0.take(i2 as int)),
                new_tbl.spec_len() + num_full(t0.skip(i2 as int)) == num_full(t0),
            decreases n - i2,
        {
            let ghost take_next = t0.take(i2 + 1 as int);
            proof {
                assert(take_next.drop_last() =~= t0.take(i2 as int));
                assert(take_next.last() == t0[i2 as int]);
                lemma_num_full_front(t0.skip(i2 as int));
                assert(t0.skip(i2 as int)[0] == t0[i2 as int]);
                assert(t0.skip(i2 as int).drop_first() =~= t0.skip(i2 + 1));
            }
            if self.table[i2].is_full() {
                let mut tmp = Entry::Empty;
                self.table.set_and_swap(i2, &mut tmp);
                match tmp {
                    Entry::Full(k2, v2, h2) => {
                        let ghost nt_before = new_tbl.table@;
                        proof {
                            assert(t0[i2 as int] == Entry::Full(k2, v2, h2));
                            assert(h2 == k2.hash_spec());
                            // the key is fresh in the new table
                            lemma_map_of_contains(t0.take(i2 as int), k2);
                            assert(!new_tbl@.contains_key(k2)) by {
                                if new_tbl@.contains_key(k2) {
                                    let m = choose|m: int|
                                        0 <= m < t0.take(i2 as int).len() && (#[trigger] t0.take(
                                            i2 as int,
                                        )[m]).spec_is_full() && t0.take(i2 as int)[m].spec_key()
                                            == k2;
                                    assert(t0[m] == t0.take(i2 as int)[m]);
                                }
                            }
                            assert(num_full(nt_before) < new_tbl.spec_capacity());
                        }
                        match new_tbl.swap_with_hash(k2, h2, v2) {
                            Ok(_) => {
                                proof {
                                    assert(map_of(take_next) == map_of(t0.take(i2 as int)).insert(
                                        k2,
                                        v2,
                                    ));
                                }
                            },
                            Err(_) => {
                                proof {
                                    assert(false);
                                }
                            },
                        }
                    },
                    _ => {
                        proof {
                            assert(false);
                        }
                    },
                }
            } else {
                proof {
                    assert(map_of(take_next) == map_of(t0.take(i2 as int)));
                }
            }
            i2 = i2 + 1;
        }
        proof {
            assert(t0.take(n as int) =~= t0);
            lemma_len_is_card(t0);
            lemma_len_is_card(new_tbl.table@);
        }
        let HashMap { table: tt, capacity: cc, mask: mm, length: ll, ghosts: gg } = new_tbl;
        self.table = tt;
        self.capacity = cc;
        self.mask = mm;
        self.length = ll;
        self.ghosts = gg;
    }

    /// The growth policy, run once at the start of every insertion: double
    /// when live entries exceed two thirds of capacity, else rebuild in
    /// place when live plus tombstoned entries reach two thirds; below
    /// both thresholds the table is untouched. Afterwards there is always
    /// a free slot.
    fn expand(&mut self)
        requires
            old(self).wf(),
            old(self).spec_capacity() <= usize::MAX / 4,
        ensures
            final(self).wf(),
            final(self)@ == old(self)@,
            final(self).spec_len() == old(self).spec_len(),
            final(self).spec_len() < final(self).spec_capacity(),
            final(self).spec_capacity() == (if old(self).spec_len() * 3 > old(self).spec_capacity()
                * 2 {
                2 * old(self).spec_capacity() as int
            } else {
                old(self).spec_capacity() as int
            }),
            old(self).spec_len() * 3 <= old(self).spec_capacity() * 2 && (old(self).spec_len()
                + old(self).ghosts) * 3 < old(self).spec_capacity() * 2 ==> *final(self) == *old(
                self,
            ),
    {
        let capacity = self.capacity;
        proof {
            lemma_counts_le(self.table@);
        }
        if self.length * 3 > capacity * 2 {
            proof {
                assert(spec_is_pow2((2 * capacity) as nat));
                lemma_next_pow2_of_pow2((2 * capacity) as nat);
            }
            self.do_expand(capacity * 2);
        } else if (self.length + self.ghosts) * 3 >= capacity * 2 {
            proof {
                lemma_next_pow2_of_pow2(capacity as nat);
            }
            self.do_expand(capacity);
        }
    }

    /// Insert a pair, growing first per the growth policy. Returns the
    /// previous value exactly when the key was already present (an
    /// overwrite, never a duplicate).
    pub fn insert(&mut self, k: K, v: V) -> (r: Option<V>)
        requires
            old(self).wf(),
            old(self).spec_capacity() <= usize::MAX / 4,
        ensures
            final(self).wf(),
            final(self)@ == old(self)@.insert(k, v),
            r == (if old(self)@.contains_key(k) {
                Option::Some(old(self)@[k])
            } else {
                Option::<V>::None
            }),
            final(self).spec_len() == old(self).spec_len() + (if old(self)@.contains_key(k) {
                0int
            } else {
                1int
            }),
            final(self).spec_capacity() == (if old(self).spec_len() * 3 > old(self).spec_capacity()
                * 2 {
                2 * old(self).spec_capacity() as int
            } else {
                old(self).spec_capacity() as int
            }),
            old(self).spec_capacity() <= final(self).spec_capacity(),
    {
        self.expand();
        let hash = k.key_hash();
        match self.swap_with_hash(k, hash, v) {
            Ok(prev) => prev,
            Err(_) => {
                proof {
                    // the growth policy left a free slot, so the placement
                    // cannot have failed
                    assert(false);
                }
                None
            },
        }
    }

    /// Look a key up, via the probe for its digest; the query may be any
    /// type standing for a stored key.
    pub fn find_equiv<Q: KeyQuery<K>>(&self, k: &Q) -> (r: Option<&V>)
        requires
            self.wf(),
        ensures
            match r {
                Some(v) => self@.contains_key(k.key_spec()) && *v == self@[k.key_spec()],
                None => !self@.contains_key(k.key_spec()),
            },
    {
        let hash = k.query_hash();
        match self.probe_equiv(k, hash) {
            None => {
                proof {
                    lemma_not_found_absent(
                        self.table@,
                        self.mask,
                        k.key_spec(),
                        hash,
                        PROBE_LIMIT as nat,
                    );
                }
                None
            },
            Some(i) => {
                let ghost jr = choose|j: nat|
                    j < PROBE_LIMIT as nat && probe_index(hash, self.mask, j) == i as u64
                        && no_match_before(self.table@, self.mask, k.key_spec(), hash, j);
                match &self.table[i] {
                    Entry::Full(_, val, _) => {
                        proof {
                            lemma_map_of_at(self.table@, i as int);
                        }
                        Some(val)
                    },
                    _ => {
                        proof {
                            lemma_not_found_absent(self.table@, self.mask, k.key_spec(), hash, jr);
                        }
                        None
                    },
                }
            },
        }
    }

    pub fn get<Q: KeyQuery<K>>(&self, k: &Q) -> (r: Option<&V>)
        requires
            self.wf(),
        ensures
            match r {
                Some(v) => self@.contains_key(k.key_spec()) && *v == self@[k.key_spec()],
                None => !self@.contains_key(k.key_spec()),
            },
    {
        self.find_equiv(k)
    }

    pub fn contains_key<Q: KeyQuery<K>>(&self, k: &Q) -> (r: bool)
        requires
            self.wf(),
        ensures
            r == self@.contains_key(k.key_spec()),
    {
        self.get(k).is_some()
    }

    /// A mutable borrow of the value stored under `k`, when present. The
    /// table afterwards holds whatever the caller wrote through the borrow.
    pub fn get_mut<Q: KeyQuery<K>>(&mut self, k: &Q) -> (r: Option<&mut V>)
        requires
            old(self).wf(),
        ensures
            match r {
                Some(v) => {
                    &&& old(self)@.contains_key(k.key_spec())
                    &&& *v == old(self)@[k.key_spec()]
                    &&& final(self).wf()
                    &&& final(self)@ == old(self)@.insert(k.key_spec(), *final(v))
                    &&& final(self).spec_len() == old(self).spec_len()
                    &&& final(self).spec_capacity() == old(self).spec_capacity()
                },
                None => !old(self)@.contains_key(k.key_spec()) && *final(self) == *old(self),
            },
    {
        let ghost t0 = self.table@;
        let hash = k.query_hash();
        match self.probe_equiv(k, hash) {
            None => {
                proof {
                    lemma_not_found_absent(t0, self.mask, k.key_spec(), hash, PROBE_LIMIT as nat);
                }
                None
            },
            Some(i) => {
                let ghost jr = choose|j: nat|
                    j < PROBE_LIMIT as nat && probe_index(hash, self.mask, j) == i as u64
                        && no_match_before(t0, self.mask, k.key_spec(), hash, j);
                if self.table[i].is_full() {
                    proof {
                        lemma_map_of_at(t0, i as int);
                        lemma_map_of_update(t0, i as int, k.key_spec(), hash);
                        lemma_update_full_counts(t0, i as int);
                        lemma_update_preserves(t0, self.mask, i as int, k.key_spec(), hash, jr);
                    }
                    let elt = &mut self.table[i];
                    match elt {
                        Entry::Full(_, v, _) => Some(v),
                        _ => {
                            proof {
                                assert(false);
                            }
                            None
                        },
                    }
                } else {
                    proof {
                        lemma_not_found_absent(t0, self.mask, k.key_spec(), hash, jr);
                    }
                    None
                }
            },
        }
    }

    /// The (key, value) pairs an iteration yields, in slot order.
    pub closed spec fn spec_pairs(self) -> Seq<(K, V)> {
        pairs_of(self.table@)
    }

    /// A lazy, restartable walk over the occupied slots.
    pub fn iter<'l>(&'l self) -> (it: HashMapIter<'l, K, V>)
        requires
            self.wf(),
        ensures
            it.wf_iter(),
            it.remaining() == self.spec_pairs(),
    {
        proof {
            assert(self.table@.skip(0) =~= self.table@);
        }
        HashMapIter { table: &self.table, pos: 0 }
    }

    /// The same walk projected to keys.
    pub fn keys<'l>(&'l self) -> (it: HashMapKeys<'l, K, V>)
        requires
            self.wf(),
        ensures
            it.wf_iter(),
            it.remaining() == keys_of(self.spec_pairs()),
    {
        HashMapKeys { inner: self.iter() }
    }
}

/// A lazy, restartable walk over a table's occupied slots, yielding
/// (key, value) pairs in slot order.
pub struct HashMapIter<'l, K, V> {
    table: &'l Vec<Entry<K, V>>,
    pos: usize,
}

impl<'l, K: TableKey, V> HashMapIter<'l, K, V> {
    /// The pairs not yet yielded.
    pub closed spec fn remaining(self) -> Seq<(K, V)> {
        pairs_of(self.table@.skip(self.pos as int))
    }

    pub closed spec fn wf_iter(self) -> bool {
        self.pos <= self.table@.len()
    }

    /// Yield the next occupied slot's pair, scanning forward.
    #[verifier::loop_isolation(false)]
    pub fn next(&mut self) -> (r: Option<(&'l K, &'l V)>)
        requires
            old(self).wf_iter(),
        ensures
            final(self).wf_iter(),
            match r {
                Some(kv) => old(self).remaining().len() > 0 && (*kv.0, *kv.1) == old(
                    self,
                ).remaining()[0] && final(self).remaining() == old(self).remaining().drop_first(),
                None => old(self).remaining().len() == 0 && final(self).remaining().len() == 0,
            },
    {
        let tab: &'l Vec<Entry<K, V>> = self.table;
        let n = tab.len();
        while self.pos < n
            invariant
                self.table == tab,
                self.pos <= n,
                pairs_of(tab@.skip(self.pos as int)) == pairs_of(tab@.skip(old(self).pos as int)),
            decreases n - self.pos,
        {
            let idx = self.pos;
            proof {
                lemma_pairs_of_skip(tab@, idx as int);
            }
            match &tab[idx] {
                Entry::Full(k, v, _) => {
                    self.pos = idx + 1;
                    proof {
                        assert((seq![
                            (tab@[idx as int].spec_key(), tab@[idx as int].spec_value()),
                        ] + pairs_of(tab@.skip(idx + 1))).drop_first() =~= pairs_of(
                            tab@.skip(idx + 1),
                        ));
                    }
                    return Some((k, v));
                },
                _ => {
                    self.pos = idx + 1;
                },
            }
        }
        proof {
            assert(tab@.skip(n as int) =~= Seq::<Entry<K, V>>::empty());
        }
        None
    }
}

/// The key projection of a table walk.
pub struct HashMapKeys<'l, K, V> {
    inner: HashMapIter<'l, K, V>,
}

impl<'l, K: TableKey, V> HashMapKeys<'l, K, V> {
    /// The keys not yet yielded.
    pub closed spec fn remaining(self) -> Seq<K> {
        keys_of(self.inner.remaining())
    }

    pub closed spec fn wf_iter(self) -> bool {
        self.inner.wf_iter()
    }

    pub fn next(&mut self) -> (r: Option<&'l K>)
        requires
            old(self).wf_iter(),
        ensures
            final(self).wf_iter(),
            match r {
                Some(k) => old(self).remaining().len() > 0 && *k == old(self).remaining()[0]
                    && final(self).remaining() == old(self).remaining().drop_first(),
                None => old(self).remaining().len() == 0 && final(self).remaining().len() == 0,
            },
    {
        let ghost rem0 = self.inner.remaining();
        match self.inner.next() {
            Some((k, _)) => {
                proof {
                    assert(keys_of(self.inner.remaining()) =~= keys_of(rem0).drop_first());
                }
                Some(k)
            },
            None => None,
        }
    }
}

/// The set wrapper: a table keyed by element with a unit payload; only
/// presence matters.
pub struct HashSet<T> {
    map: HashMap<T, ()>,
}

impl<T: TableKey> View for HashSet<T> {
    type V = Set<T>;

    closed spec fn view(&self) -> Set<T> {
        self.map@.dom()
    }
}

impl<T: TableKey> HashSet<T> {
    pub closed spec fn wf(self) -> bool {
        self.map.wf()
    }

    pub closed spec fn spec_capacity(self) -> usize {
        self.map.spec_capacity()
    }

    /// The elements iteration yields, in slot order.
    pub closed spec fn spec_elems(self) -> Seq<T> {
        keys_of(self.map.spec_pairs())
    }

    pub fn new() -> (r: HashSet<T>)
        ensures
            r.wf(),
            r@ == Set::<T>::empty(),
            r.spec_capacity() == 8,
    {
        let r = HashSet { map: HashMap::new() };
        proof {
            assert(r.map@.dom() =~= Set::<T>::empty());
        }
        r
    }

    /// Add an element; true exactly when it was not yet present.
    pub fn insert(&mut self, v: T) -> (r: bool)
        requires
            old(self).wf(),
            old(self).spec_capacity() <= usize::MAX / 4,
        ensures
            final(self).wf(),
            r == !old(self)@.contains(v),
            final(self)@ == old(self)@.insert(v),
            final(self)@.len() == old(self)@.len() + (if old(self)@.contains(v) {
                0int
            } else {
                1int
            }),
            old(self).spec_capacity() <= final(self).spec_capacity(),
            final(self).spec_capacity() == old(self).spec_capacity() || final(self).spec_capacity()
                == 2 * old(self).spec_capacity(),
    {
        let ghost m0 = self.map@;
        let r = match self.map.insert(v, ()) {
            Some(_) => false,
            None => true,
        };
        proof {
            lemma_len_is_card(old(self).map.table@);
            lemma_len_is_card(self.map.table@);
            assert(self.map@ == m0.insert(v, ()));
            assert forall|x: T| self.map@.dom().contains(x) <==> m0.dom().insert(v).contains(
                x,
            ) by {
                assert(self.map@.contains_key(x) <==> m0.insert(v, ()).contains_key(x));
            }
            assert(self.map@.dom() =~= m0.dom().insert(v));
            if m0.contains_key(v) {
                assert(m0.dom().insert(v) =~= m0.dom());
            }
        }
        r
    }

    pub fn len(&self) -> (r: usize)
        requires
            self.wf(),
        ensures
            r as nat == self@.len(),
    {
        self.map.len()
    }

    /// A lazy, restartable walk over the elements.
    pub fn iter<'l>(&'l self) -> (it: HashMapKeys<'l, T, ()>)
        requires
            self.wf(),
        ensures
            it.wf_iter(),
            it.remaining() == self.spec_elems(),
    {
        self.map.keys()
    }

    pub fn contains<Q: KeyQuery<T>>(&self, v: &Q) -> (r: bool)
        requires
            self.wf(),
        ensures
            r == self@.contains(v.key_spec()),
    {
        self.map.contains_key(v)
    }

    /// True when no element of `self` is in `other`; scans the backing
    /// array directly.
    #[verifier::loop_isolation(false)]
    pub fn is_disjoint(&self, other: &HashSet<T>) -> (r: bool)
        requires
            self.wf(),
            other.wf(),
        ensures
            r == self@.disjoint(other@),
    {
        let n = self.map.table.len();
        let mut i: usize = 0;
        while i < n
            invariant
                i <= n,
                forall|m: int|
                    0 <= m < i && (#[trigger] self.map.table@[m]).spec_is_full() ==> !other@.contains(
                        self.map.table@[m].spec_key(),
                    ),
            decreases n - i,
        {
            match &self.map.table[i] {
                Entry::Full(k, _, _) => {
                    if other.contains(k) {
                        proof {
                            lemma_map_of_at(self.map.table@, i as int);
                        }
                        return false;
                    }
                },
                _ => {},
            }
            i = i + 1;
        }
        proof {
            assert forall|a: T| self@.contains(a) implies !other@.contains(a) by {
                lemma_map_of_contains(self.map.table@, a);
                let m = choose|m: int|
                    0 <= m < self.map.table@.len() && (#[trigger] self.map.table@[m]).spec_is_full()
                        && self.map.table@[m].spec_key() == a;
            }
        }
        true
    }

    /// True when every element of `self` is in `other`; scans the backing
    /// array directly.
    #[verifier::loop_isolation(false)]
    pub fn is_subset(&self, other: &HashSet<T>) -> (r: bool)
        requires
            self.wf(),
            other.wf(),
        ensures
            r == self@.subset_of(other@),
    {
        let n = self.map.table.len();
        let mut i: usize = 0;
        while i < n
            invariant
                i <= n,
                forall|m: int|
                    0 <= m < i && (#[trigger] self.map.table@[m]).spec_is_full() ==> other@.contains(
                        self.map.table@[m].spec_key(),
                    ),
            decreases n - i,
        {
            match &self.map.table[i] {
                Entry::Full(k, _, _) => {
                    if !other.contains(k) {
                        proof {
                            lemma_map_of_at(self.map.table@, i as int);
                        }
                        return false;
                    }
                },
                _ => {},
            }
            i = i + 1;
        }
        proof {
            assert forall|a: T| self@.contains(a) implies other@.contains(a) by {
                lemma_map_of_contains(self.map.table@, a);
                let m = choose|m: int|
                    0 <= m < self.map.table@.len() && (#[trigger] self.map.table@[m]).spec_is_full()
                        && self.map.table@[m].spec_key() == a;
            }
        }
        true
    }

    /// `self` contains `other` exactly when `other` is a subset of `self`.
    pub fn is_superset(&self, other: &HashSet<T>) -> (r: bool)
        requires
            self.wf(),
            other.wf(),
        ensures
            r == other@.subset_of(self@),
    {
        other.is_subset(self)
    }
}

// ---------------------------------------------------------------------
// Laws the table satisfies, stated over its mathematical view.

/// The reported length always equals the number of distinct keys held:
/// the cardinality of the view's domain. With no removal operation, that
/// is the number of distinct keys ever inserted.
pub proof fn lemma_len_counts_distinct_keys<K: TableKey, V>(m: HashMap<K, V>)
    requires
        m.wf(),
    ensures
        m@.dom().finite(),
        m.spec_len() as nat == m@.dom().len(),
{
    lemma_len_is_card(m.table@);
}

/// The capacity of a well-formed table is always a power of two. (That it
/// never decreases, and doubles exactly when live entries exceed two
/// thirds of it, is stated by `insert`'s contract.)
pub proof fn lemma_capacity_power_of_two<K: TableKey, V>(m: HashMap<K, V>)
    requires
        m.wf(),
    ensures
        spec_is_pow2(m.spec_capacity() as nat),
{
}

/// Iteration yields each occupied slot exactly once: as many pairs as the
/// table's length, each pair held by the view, no key twice, and every
/// held key yielded with its value.
pub proof fn lemma_iteration_exact<K: TableKey, V>(m: HashMap<K, V>)
    requires
        m.wf(),
    ensures
        m.spec_pairs().len() == m.spec_len(),
        forall|p: int, q: int|
            0 <= p < q < m.spec_pairs().len() ==> (#[trigger] m.spec_pairs()[p]).0 != (
            #[trigger] m.spec_pairs()[q]).0,
        forall|p: int|
            0 <= p < m.spec_pairs().len() ==> m@.contains_key((#[trigger] m.spec_pairs()[p]).0)
                && m@[m.spec_pairs()[p].0] == m.spec_pairs()[p].1,
        forall|k: K|
            m@.contains_key(k) ==> exists|p: int|
                0 <= p < m.spec_pairs().len() && #[trigger] m.spec_pairs()[p] == (k, m@[k]),
{
    let s = m.table@;
    lemma_pairs_exact(s);
    assert forall|p: int|
        0 <= p < m.spec_pairs().len() implies m@.contains_key((#[trigger] m.spec_pairs()[p]).0)
        && m@[m.spec_pairs()[p].0] == m.spec_pairs()[p].1 by {
        assert(pair_backed(s, p));
        let i = choose|i: int|
            0 <= i < s.len() && (#[trigger] s[i]).spec_is_full() && s[i].spec_key() == pairs_of(
                s,
            )[p].0 && s[i].spec_value() == pairs_of(s)[p].1;
        lemma_map_of_at(s, i);
    }
    assert forall|k: K| m@.contains_key(k) implies exists|p: int|
        0 <= p < m.spec_pairs().len() && #[trigger] m.spec_pairs()[p] == (k, m@[k]) by {
        lemma_map_of_contains(s, k);
        let i = choose|i: int|
            0 <= i < s.len() && (#[trigger] s[i]).spec_is_full() && s[i].spec_key() == k;
        lemma_map_of_at(s, i);
        let p = choose|p: int|
            0 <= p < pairs_of(s).len() && pairs_of(s)[p] == (s[i].spec_key(), s[i].spec_value());
        assert(m.spec_pairs()[p] == (k, m@[k]));
    }
}

/// Set iteration yields each member exactly once: as many elements as the
/// set's size, none twice, each a member, and every member yielded.
pub proof fn lemma_set_iteration_exact<T: TableKey>(s: HashSet<T>)
    requires
        s.wf(),
    ensures
        s.spec_elems().len() as nat == s@.len(),
        forall|p: int, q: int|
            0 <= p < q < s.spec_elems().len() ==> #[trigger] s.spec_elems()[p] != #[trigger] s.spec_elems()[q],
        forall|p: int| 0 <= p < s.spec_elems().len() ==> s@.contains(#[trigger] s.spec_elems()[p]),
        forall|x: T|
            s@.contains(x) ==> exists|p: int|
                0 <= p < s.spec_elems().len() && #[trigger] s.spec_elems()[p] == x,
{
    lemma_iteration_exact(s.map);
    lemma_len_counts_distinct_keys(s.map);
    let ps = s.map.spec_pairs();
    assert forall|p: int| 0 <= p < s.spec_elems().len() implies s@.contains(
        #[trigger] s.spec_elems()[p],
    ) by {
        assert(s.spec_elems()[p] == ps[p].0);
    }
    assert forall|p: int, q: int| 0 <= p < q < s.spec_elems().len() implies #[trigger] s.spec_elems()[p]
        != #[trigger] s.spec_elems()[q] by {
        assert(s.spec_elems()[p] == ps[p].0 && s.spec_elems()[q] == ps[q].0);
    }
    assert forall|x: T| s@.contains(x) implies exists|p: int|
        0 <= p < s.spec_elems().len() && #[trigger] s.spec_elems()[p] == x by {
        let p = choose|p: int| 0 <= p < ps.len() && #[trigger] ps[p] == (x, s.map@[x]);
        assert(s.spec_elems()[p] == x);
    }
}

/// A set insert returns true exactly on an element's first insertion, and
/// the set's size counts the distinct elements inserted: inserting a fresh
/// element grows the size by one, re-inserting leaves it unchanged.
pub proof fn lemma_set_insert_counts_distinct<T: TableKey>(s0: HashSet<T>, s1: HashSet<T>, v: T)
    requires
        s0.wf(),
        s1@ == s0@.insert(v),
    ensures
        s0@.finite(),
        !s0@.contains(v) ==> s1@.len() == s0@.len() + 1,
        s0@.contains(v) ==> s1@ == s0@ && s1@.len() == s0@.len(),
{
    lemma_len_is_card(s0.map.table@);
    if s0@.contains(v) {
        assert(s0@.insert(v) =~= s0@);
    }
}

} // verus!
