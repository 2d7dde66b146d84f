//! Sums over the entries of a map.

use vstd::prelude::*;

verus! {

/// The sum of `weight` over the entries of a finite map.
pub open spec fn map_sum<K, V>(m: Map<K, V>, weight: spec_fn(K, V) -> int) -> int
    decreases m.dom().len(),
{
    if !m.dom().finite() || m.dom().len() == 0 {
        0
    } else {
        let k = m.dom().choose();
        weight(k, m[k]) + map_sum(m.remove(k), weight)
    }
}

/// Any entry can be taken out of the sum.
pub proof fn lemma_sum_take<K, V>(m: Map<K, V>, weight: spec_fn(K, V) -> int, k: K)
    requires
        m.dom().finite(),
        m.contains_key(k),
    ensures
        map_sum(m, weight) == weight(k, m[k]) + map_sum(m.remove(k), weight),
    decreases m.dom().len(),
{
    assert(m.dom().len() > 0) by {
        if m.dom().len() == 0 {
            assert(m.dom() =~= Set::<K>::empty());
        }
    }
    let c = m.dom().choose();
    assert(m.dom().contains(c));
    if c != k {
        let without_c = m.remove(c);
        assert(without_c.dom() =~= m.dom().remove(c));
        lemma_sum_take(without_c, weight, k);
        let without_k = m.remove(k);
        assert(without_k.dom() =~= m.dom().remove(k));
        assert(without_k.contains_key(c));
        lemma_sum_take(without_k, weight, c);
        assert(without_c.remove(k) =~= without_k.remove(c));
    }
}

/// What a new or changed entry does to the sum.
pub proof fn lemma_sum_insert<K, V>(m: Map<K, V>, weight: spec_fn(K, V) -> int, k: K, v: V)
    requires
        m.dom().finite(),
    ensures
        map_sum(m.insert(k, v), weight) == weight(k, v) + map_sum(m.remove(k), weight),
        m.contains_key(k) ==> map_sum(m.insert(k, v), weight) == map_sum(m, weight) - weight(
            k,
            m[k],
        ) + weight(k, v),
        !m.contains_key(k) ==> map_sum(m.insert(k, v), weight) == map_sum(m, weight) + weight(k, v),
{
    let n = m.insert(k, v);
    assert(n.dom() =~= m.dom().insert(k));
    lemma_sum_take(n, weight, k);
    assert(n.remove(k) =~= m.remove(k));
    if m.contains_key(k) {
        lemma_sum_take(m, weight, k);
    } else {
        assert(m.remove(k) =~= m);
    }
}

/// What the removal of an entry does to the sum.
pub proof fn lemma_sum_remove<K, V>(m: Map<K, V>, weight: spec_fn(K, V) -> int, k: K)
    requires
        m.dom().finite(),
    ensures
        m.contains_key(k) ==> map_sum(m.remove(k), weight) == map_sum(m, weight) - weight(k, m[k]),
        !m.contains_key(k) ==> map_sum(m.remove(k), weight) == map_sum(m, weight),
{
    if m.contains_key(k) {
        lemma_sum_take(m, weight, k);
    } else {
        assert(m.remove(k) =~= m);
    }
}

/// Where no weight is negative, a part of a sum is not above it.
pub proof fn lemma_sum_restrict<K, V>(m: Map<K, V>, weight: spec_fn(K, V) -> int, kept: Set<K>)
    requires
        m.dom().finite(),
        forall|k: K, v: V| #[trigger] weight(k, v) >= 0,
    ensures
        map_sum(m.restrict(kept), weight) <= map_sum(m, weight),
    decreases m.dom().len(),
{
    let part = m.restrict(kept);
    assert(part.dom() =~= m.dom().intersect(kept));
    let dropped = m.dom().difference(kept);
    if dropped =~= Set::<K>::empty() {
        assert forall|k: K| m.dom().contains(k) implies #[trigger] part.dom().contains(k) by {
            assert(!dropped.contains(k));
        }
        assert(part =~= m);
    } else {
        let k = dropped.choose();
        assert(dropped.contains(k));
        lemma_sum_take(m, weight, k);
        assert(m.remove(k).dom() =~= m.dom().remove(k));
        lemma_sum_restrict(m.remove(k), weight, kept);
        assert(m.remove(k).restrict(kept) =~= part);
    }
}

/// A sum of weights that are not negative is not negative, and no weight is above it.
pub proof fn lemma_sum_bounds<K, V>(m: Map<K, V>, weight: spec_fn(K, V) -> int)
    requires
        forall|k: K, v: V| #[trigger] weight(k, v) >= 0,
    ensures
        map_sum(m, weight) >= 0,
        m.dom().finite() ==> forall|k: K| #[trigger]
            m.contains_key(k) ==> weight(k, m[k]) <= map_sum(m, weight),
    decreases m.dom().len(),
{
    if m.dom().finite() {
        if m.dom().len() > 0 {
            let c = m.dom().choose();
            assert(m.remove(c).dom() =~= m.dom().remove(c));
            lemma_sum_bounds(m.remove(c), weight);
        }
        assert forall|k: K| #[trigger] m.contains_key(k) implies weight(k, m[k]) <= map_sum(
            m,
            weight,
        ) by {
            lemma_sum_take(m, weight, k);
            assert(m.remove(k).dom() =~= m.dom().remove(k));
            assert(m.dom().len() > 0);
            lemma_sum_bounds(m.remove(k), weight);
        }
    }
}

} // verus!
