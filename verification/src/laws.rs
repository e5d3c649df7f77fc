//! Laws relating sequences of insertions to lookups, stated over the
//! `Map` view that the tree's contracts use.

use vstd::prelude::*;

verus! {

/// The map obtained from `m` by performing the insertions of `s` in order.
///
/// A run of `Tree::insert` calls starting from a tree whose view is `m`
/// leaves a tree whose view is `insert_all(m, s)`, by the `ensures` of
/// `Tree::insert`.
pub open spec fn insert_all<K, V>(m: Map<K, V>, s: Seq<(K, V)>) -> Map<K, V>
    decreases s.len(),
{
    if s.len() == 0 {
        m
    } else {
        insert_all(m.insert(s[0].0, s[0].1), s.drop_first())
    }
}

/// A key inserted with some value and never overwritten afterwards still
/// maps to that value after any further insertions under other keys.
pub proof fn lemma_find_after_inserts<K, V>(m: Map<K, V>, k: K, v: V, s: Seq<(K, V)>)
    requires
        forall|i: int| 0 <= i < s.len() ==> (#[trigger] s[i]).0 != k,
    ensures
        insert_all(m.insert(k, v), s).dom().contains(k),
        insert_all(m.insert(k, v), s)[k] == v,
    decreases s.len(),
{
    if s.len() > 0 {
        let m2 = m.insert(k, v).insert(s[0].0, s[0].1);
        assert(s[0].0 != k);
        assert(m2 == m.insert(s[0].0, s[0].1).insert(k, v)) by {
            assert(m2 =~= m.insert(s[0].0, s[0].1).insert(k, v));
        }
        lemma_find_after_inserts(m.insert(s[0].0, s[0].1), k, v, s.drop_first());
    }
}

/// A key that no insertion of `s` ever used is absent from the tree built
/// by performing `s` on the empty map; in particular a lookup on the empty
/// tree itself (`s` empty) finds nothing.
pub proof fn lemma_find_never_inserted<K, V>(s: Seq<(K, V)>, k: K)
    requires
        forall|i: int| 0 <= i < s.len() ==> (#[trigger] s[i]).0 != k,
    ensures
        !insert_all(Map::<K, V>::empty(), s).dom().contains(k),
{
    lemma_absent_key_stays_absent(Map::<K, V>::empty(), s, k);
}

/// Inserting the same pair twice in succession yields the same map as
/// inserting it once, and the second insertion finds the first one's value.
pub proof fn lemma_insert_idempotent<K, V>(m: Map<K, V>, k: K, v: V)
    ensures
        m.insert(k, v).insert(k, v) == m.insert(k, v),
        m.insert(k, v).dom().contains(k),
        m.insert(k, v)[k] == v,
{
    assert(m.insert(k, v).insert(k, v) =~= m.insert(k, v));
}

proof fn lemma_absent_key_stays_absent<K, V>(m: Map<K, V>, s: Seq<(K, V)>, k: K)
    requires
        !m.dom().contains(k),
        forall|i: int| 0 <= i < s.len() ==> (#[trigger] s[i]).0 != k,
    ensures
        !insert_all(m, s).dom().contains(k),
    decreases s.len(),
{
    if s.len() > 0 {
        assert(s[0].0 != k);
        lemma_absent_key_stays_absent(m.insert(s[0].0, s[0].1), s.drop_first(), k);
    }
}

} // verus!
