//! The tri-state slot: empty, occupied (key, value, cached digest), or
//! tombstoned (key retained after a notional removal, cached digest, no
//! value). The cached digest is set when the key first lands in a slot and
//! is never recomputed.

use vstd::prelude::*;
use vstd::pervasive::arbitrary;
use crate::key::TableKey;
use crate::key::KeyQuery;

verus! {

#[derive(Clone)]
pub enum Entry<K, V> {
    Empty,
    Full(K, V, u64),
    Tombstone(K, u64),
}

impl<K, V> Entry<K, V> {
    pub open spec fn spec_is_empty(self) -> bool {
        match self {
            Entry::Empty => true,
            _ => false,
        }
    }

    pub open spec fn spec_is_full(self) -> bool {
        match self {
            Entry::Full(_, _, _) => true,
            _ => false,
        }
    }

    pub open spec fn spec_is_tomb(self) -> bool {
        match self {
            Entry::Tombstone(_, _) => true,
            _ => false,
        }
    }

    /// The key held by an occupied or tombstoned slot.
    pub open spec fn spec_key(self) -> K {
        match self {
            Entry::Full(k, _, _) => k,
            Entry::Tombstone(k, _) => k,
            Entry::Empty => arbitrary(),
        }
    }

    /// The value held by an occupied slot.
    pub open spec fn spec_value(self) -> V {
        match self {
            Entry::Full(_, v, _) => v,
            _ => arbitrary(),
        }
    }

    /// The cached digest of an occupied or tombstoned slot.
    pub open spec fn spec_hash(self) -> u64 {
        match self {
            Entry::Full(_, _, h) => h,
            Entry::Tombstone(_, h) => h,
            Entry::Empty => arbitrary(),
        }
    }

    /// Whether a probe for `(key, hash)` stops at this slot: an empty slot
    /// always stops the probe, a non-empty slot only when both the cached
    /// digest and the key agree.
    pub open spec fn spec_matches(self, key: K, hash: u64) -> bool {
        match self {
            Entry::Empty => true,
            Entry::Full(k, _, h) => h == hash && key == k,
            Entry::Tombstone(k, h) => h == hash && key == k,
        }
    }

    pub fn is_empty(&self) -> (r: bool)
        ensures
            r == self.spec_is_empty(),
    {
        match self {
            Entry::Empty => true,
            _ => false,
        }
    }

    pub fn is_full(&self) -> (r: bool)
        ensures
            r == self.spec_is_full(),
    {
        match self {
            Entry::Full(_, _, _) => true,
            _ => false,
        }
    }

    pub fn is_ghost(&self) -> (r: bool)
        ensures
            r == self.spec_is_tomb(),
    {
        match self {
            Entry::Tombstone(_, _) => true,
            _ => false,
        }
    }

    /// The key of an occupied slot, or nothing.
    pub fn key(&self) -> (r: Option<&K>)
        ensures
            match r {
                Some(k) => self.spec_is_full() && *k == self.spec_key(),
                None => !self.spec_is_full(),
            },
    {
        match self {
            Entry::Full(k, _, _) => Some(k),
            _ => None,
        }
    }

    /// The value of an occupied slot, or nothing.
    pub fn value(&self) -> (r: Option<&V>)
        ensures
            match r {
                Some(v) => self.spec_is_full() && *v == self.spec_value(),
                None => !self.spec_is_full(),
            },
    {
        match self {
            Entry::Full(_, v, _) => Some(v),
            _ => None,
        }
    }
}

impl<K: TableKey, V> Entry<K, V> {
    /// Decide whether a probe for `(key, hash)` stops at this slot; the
    /// query may be any type standing for a stored key.
    pub fn matches<Q: KeyQuery<K>>(&self, key: &Q, hash: u64) -> (r: bool)
        ensures
            r == self.spec_matches(key.key_spec(), hash),
    {
        match self {
            Entry::Empty => true,
            Entry::Full(k, _, h) => *h == hash && key.query_eq(k),
            Entry::Tombstone(k, h) => *h == hash && key.query_eq(k),
        }
    }
}

} // verus!
