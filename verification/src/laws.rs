//! Laws relating the table's operations to one another, stated over the
//! mathematical views that the operations' contracts use.

use vstd::prelude::*;
use crate::key::TableKey;
use crate::table::HashMap;
use crate::table::HashSet;

verus! {

/// A freshly constructed table holds nothing: lookup reports every key
/// absent.
pub proof fn lemma_fresh_lookup_absent<K: TableKey, V>(m: HashMap<K, V>, k: K)
    requires
        m@ == Map::<K, V>::empty(),
    ensures
        !m@.contains_key(k),
{
}

/// Once an insert of `(k, v)` has taken effect, lookup on `k` gives `v`.
pub proof fn lemma_insert_then_get<K: TableKey, V>(
    m0: HashMap<K, V>,
    m1: HashMap<K, V>,
    k: K,
    v: V,
)
    requires
        m1@ == m0@.insert(k, v),
    ensures
        m1@.contains_key(k),
        m1@[k] == v,
{
}

/// Re-inserting a present key overwrites: the key set — and with it the
/// length — is unchanged, and lookup afterwards gives the new value.
pub proof fn lemma_reinsert_overwrites<K: TableKey, V>(
    m0: HashMap<K, V>,
    m1: HashMap<K, V>,
    k: K,
    v: V,
)
    requires
        m0@.contains_key(k),
        m1@ == m0@.insert(k, v),
    ensures
        m1@.contains_key(k),
        m1@[k] == v,
        m1@.dom() == m0@.dom(),
        m0@.dom().finite() ==> m1@.dom().len() == m0@.dom().len(),
{
    assert(m1@.dom() =~= m0@.dom());
}

/// Disjointness is symmetric: scanning either set gives the same verdict.
pub proof fn lemma_disjoint_symmetric<T: TableKey>(a: HashSet<T>, b: HashSet<T>)
    ensures
        a@.disjoint(b@) <==> b@.disjoint(a@),
{
    if a@.disjoint(b@) {
        assert forall|x: T| b@.contains(x) implies !a@.contains(x) by {}
    }
    if b@.disjoint(a@) {
        assert forall|x: T| a@.contains(x) implies !b@.contains(x) by {}
    }
}

/// `a.is_subset(b)` and `b.is_superset(a)` decide the same relation: each
/// returns, by its contract, whether `a`'s view is a subset of `b`'s.
pub proof fn lemma_subset_superset_agree<T: TableKey>(a: HashSet<T>, b: HashSet<T>, r1: bool, r2: bool)
    requires
        r1 == a@.subset_of(b@),
        r2 == a@.subset_of(b@),
    ensures
        r1 == r2,
{
}

} // verus!
