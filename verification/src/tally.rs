//! Sums over maps.
use vstd::prelude::*;

verus! {

/// The weights of all entries of `m`, added up.
pub open spec fn total<K, V>(m: Map<K, V>, weight: spec_fn(K, V) -> nat) -> nat
    decreases m.dom().len(),
    when m.dom().finite()
{
    if m.dom().len() == 0 {
        0
    } else {
        let k = m.dom().choose();
        weight(k, m[k]) + total(m.remove(k), weight)
    }
}

pub proof fn lemma_total_remove<K, V>(m: Map<K, V>, weight: spec_fn(K, V) -> nat, k: K)
    requires
        m.dom().finite(),
        m.contains_key(k),
    ensures
        total(m, weight) == weight(k, m[k]) + total(m.remove(k), weight),
    decreases m.dom().len(),
{
    let c = m.dom().choose();
    if c != k {
        lemma_total_remove(m.remove(c), weight, k);
        lemma_total_remove(m.remove(k), weight, c);
        assert(m.remove(c).remove(k) =~= m.remove(k).remove(c));
    }
}

pub proof fn lemma_total_insert<K, V>(m: Map<K, V>, weight: spec_fn(K, V) -> nat, k: K, v: V)
    requires
        m.dom().finite(),
    ensures
        !m.contains_key(k) ==> total(m.insert(k, v), weight) == total(m, weight) + weight(k, v),
        m.contains_key(k) ==> total(m.insert(k, v), weight) + weight(k, m[k]) == total(m, weight)
            + weight(k, v),
        total(m.insert(k, v), weight) == weight(k, v) + total(m.remove(k), weight),
{
    lemma_total_remove(m.insert(k, v), weight, k);
    assert(m.insert(k, v).remove(k) =~= m.remove(k));
    if m.contains_key(k) {
        lemma_total_remove(m, weight, k);
    } else {
        assert(m.remove(k) =~= m);
    }
}

/// Dropping entries never adds weight.
pub proof fn lemma_total_subset<K, V>(m: Map<K, V>, less: Map<K, V>, weight: spec_fn(K, V) -> nat)
    requires
        m.dom().finite(),
        less.submap_of(m),
    ensures
        less.dom().finite(),
        total(less, weight) <= total(m, weight),
    decreases m.dom().len(),
{
    assert(less.dom().subset_of(m.dom()));
    vstd::set_lib::lemma_len_subset(less.dom(), m.dom());
    if m.dom().len() == 0 {
    } else {
        let k = m.dom().choose();
        if less.contains_key(k) {
            lemma_total_remove(less, weight, k);
            assert(less.remove(k).submap_of(m.remove(k)));
            lemma_total_subset(m.remove(k), less.remove(k), weight);
        } else {
            assert(less.submap_of(m.remove(k)));
            lemma_total_subset(m.remove(k), less, weight);
        }
    }
}

/// A finite set that is not empty has a least element under any measure.
pub proof fn lemma_least<K>(s: Set<K>, measure: spec_fn(K) -> int) -> (least: K)
    requires
        s.finite(),
        s.len() > 0,
    ensures
        s.contains(least),
        forall|q: K| #[trigger] s.contains(q) ==> measure(least) <= measure(q),
    decreases s.len(),
{
    let x = s.choose();
    let rest = s.remove(x);
    if rest.len() == 0 {
        rest.lemma_len0_is_empty();
        assert forall|q: K| #[trigger] s.contains(q) implies measure(x) <= measure(q) by {
            assert(!rest.contains(q));
        }
        x
    } else {
        let y = lemma_least(rest, measure);
        let least = if measure(x) <= measure(y) { x } else { y };
        assert forall|q: K| #[trigger] s.contains(q) implies measure(least) <= measure(q) by {
            if q != x {
                assert(rest.contains(q));
            }
        }
        least
    }
}

} // verus!
