//! The sum of the counts of a finite map.

use vstd::prelude::*;

verus! {

/// The sum of all the counts in `m`.
pub open spec fn total<K>(m: Map<K, nat>) -> nat
    decreases m.dom().len(),
    when m.dom().finite()
{
    if m.dom().is_empty() {
        0
    } else {
        let k = m.dom().choose();
        m[k] + total(m.remove(k))
    }
}

/// The count of `k` in `m`, zero where `m` has no such key.
pub open spec fn count_of<K>(m: Map<K, nat>, k: K) -> nat {
    if m.contains_key(k) {
        m[k]
    } else {
        0
    }
}

/// The empty map sums to zero.
pub proof fn lemma_total_empty<K>()
    ensures
        total(Map::<K, nat>::empty()) == 0,
{
    assert(Map::<K, nat>::empty().dom() =~= Set::<K>::empty());
}

/// The sum splits at any key: its count plus the sum of the rest.
pub proof fn lemma_total_remove<K>(m: Map<K, nat>, k: K)
    requires
        m.dom().finite(),
        m.contains_key(k),
    ensures
        total(m) == m[k] + total(m.remove(k)),
    decreases m.dom().len(),
{
    let c = m.dom().choose();
    assert(m.dom().contains(k));
    if c != k {
        assert(m.remove(c).dom() =~= m.dom().remove(c));
        assert(m.remove(k).dom() =~= m.dom().remove(k));
        lemma_total_remove(m.remove(c), k);
        lemma_total_remove(m.remove(k), c);
        assert(m.remove(c).remove(k) =~= m.remove(k).remove(c));
    }
}

/// Setting the count of `k` to `v` changes the sum by the difference.
pub proof fn lemma_total_insert<K>(m: Map<K, nat>, k: K, v: nat)
    requires
        m.dom().finite(),
    ensures
        total(m.insert(k, v)) + count_of(m, k) == total(m) + v,
{
    let m2 = m.insert(k, v);
    lemma_total_remove(m2, k);
    if m.contains_key(k) {
        lemma_total_remove(m, k);
        assert(m2.remove(k) =~= m.remove(k));
    } else {
        assert(m2.remove(k) =~= m);
    }
}

/// No count is larger than the sum.
pub proof fn lemma_total_bounds<K>(m: Map<K, nat>, k: K)
    requires
        m.dom().finite(),
        m.contains_key(k),
    ensures
        m[k] <= total(m),
{
    lemma_total_remove(m, k);
}

} // verus!
