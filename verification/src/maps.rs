//! Association sequences and the finite maps they describe.
//!
//! Every replicated structure in this crate stores its per-replica
//! entries in a `Vec` of key/value pairs with pairwise-distinct keys.
//! Specifications speak about the `Map` such a sequence describes;
//! this module defines that abstraction together with the sum and
//! pointwise-maximum operations the counter lattices are built on.

use vstd::prelude::*;

verus! {

/// The finite map described by a sequence of key/value pairs; a later
/// pair with the same key shadows an earlier one.
pub open spec fn assoc_map<K, V>(s: Seq<(K, V)>) -> Map<K, V>
    decreases s.len(),
{
    if s.len() == 0 {
        Map::empty()
    } else {
        assoc_map(s.drop_last()).insert(s.last().0, s.last().1)
    }
}

/// No two pairs of the sequence share a key.
pub open spec fn unique_keys<K, V>(s: Seq<(K, V)>) -> bool {
    forall|i: int, j: int| 0 <= i < j < s.len() ==> (#[trigger] s[i]).0 != (#[trigger] s[j]).0
}

/// Some pair of the sequence carries the key `k`.
pub open spec fn has_key<K, V>(s: Seq<(K, V)>, k: K) -> bool {
    exists|i: int| 0 <= i < s.len() && (#[trigger] s[i]).0 == k
}

/// The value stored under `k`, taking absent keys as zero.
pub open spec fn get_or_zero<K>(m: Map<K, u32>, k: K) -> u32 {
    if m.dom().contains(k) {
        m[k]
    } else {
        0
    }
}

/// The larger of two magnitudes.
pub open spec fn max_u32(a: u32, b: u32) -> u32 {
    if a >= b {
        a
    } else {
        b
    }
}

/// The join of two magnitude maps: the union of their domains, with
/// the pointwise maximum (absent entries taken as zero).
pub open spec fn join_max<K>(a: Map<K, u32>, b: Map<K, u32>) -> Map<K, u32> {
    Map::new(
        |k: K| a.dom().contains(k) || b.dom().contains(k),
        |k: K| max_u32(get_or_zero(a, k), get_or_zero(b, k)),
    )
}

/// The sum of all magnitudes held in a finite map.
pub open spec fn map_sum<K>(m: Map<K, u32>) -> int
    decreases m.dom().len(),
{
    if m.dom().finite() && m.dom().len() > 0 {
        let k = m.dom().choose();
        m[k] + map_sum(m.remove(k))
    } else {
        0
    }
}

/// A key is in the described map exactly when some pair carries it,
/// and the domain is finite.
pub proof fn lemma_assoc_map_dom<K, V>(s: Seq<(K, V)>)
    ensures
        assoc_map(s).dom().finite(),
        forall|k: K| #[trigger] assoc_map(s).dom().contains(k) <==> has_key(s, k),
    decreases s.len(),
{
    if s.len() == 0 {
        assert(forall|k: K| !has_key(s, k));
    } else {
        let dl = s.drop_last();
        lemma_assoc_map_dom(dl);
        assert forall|k: K| #[trigger] assoc_map(s).dom().contains(k) implies has_key(s, k) by {
            if k == s.last().0 {
                assert(s[s.len() - 1].0 == k);
            } else {
                let i = choose|i: int| 0 <= i < dl.len() && (#[trigger] dl[i]).0 == k;
                assert(s[i].0 == k);
            }
        }
        assert forall|k: K| has_key(s, k) implies #[trigger] assoc_map(s).dom().contains(k) by {
            let i = choose|i: int| 0 <= i < s.len() && (#[trigger] s[i]).0 == k;
            if i < s.len() - 1 {
                assert(dl[i].0 == k);
                assert(has_key(dl, k));
            }
        }
    }
}

/// Under distinct keys, the described map sends each pair's key to
/// that pair's value.
pub proof fn lemma_assoc_map_index<K, V>(s: Seq<(K, V)>, i: int)
    requires
        unique_keys(s),
        0 <= i < s.len(),
    ensures
        assoc_map(s).dom().contains(s[i].0),
        assoc_map(s)[s[i].0] == s[i].1,
    decreases s.len(),
{
    let dl = s.drop_last();
    if i == s.len() - 1 {
    } else {
        assert(unique_keys(dl));
        assert(dl[i] == s[i]);
        lemma_assoc_map_index(dl, i);
        assert(s[i].0 != s.last().0);
    }
}

/// Appending a pair updates the described map at that pair's key.
pub proof fn lemma_assoc_map_push<K, V>(s: Seq<(K, V)>, p: (K, V))
    ensures
        assoc_map(s.push(p)) == assoc_map(s).insert(p.0, p.1),
{
    assert(s.push(p).drop_last() =~= s);
    assert(s.push(p).last() == p);
}

/// Appending a pair with a fresh key keeps the keys distinct.
pub proof fn lemma_unique_push<K, V>(s: Seq<(K, V)>, p: (K, V))
    requires
        unique_keys(s),
        !has_key(s, p.0),
    ensures
        unique_keys(s.push(p)),
{
    let t = s.push(p);
    assert forall|i: int, j: int| 0 <= i < j < t.len() implies (#[trigger] t[i]).0 != (
    #[trigger] t[j]).0 by {
        if j == s.len() {
            assert(s[i].0 == t[i].0);
        }
    }
}

/// Replacing the pair at `i` by one with the same key updates the
/// described map at that key.
pub proof fn lemma_assoc_map_update<K, V>(s: Seq<(K, V)>, i: int, p: (K, V))
    requires
        unique_keys(s),
        0 <= i < s.len(),
        s[i].0 == p.0,
    ensures
        assoc_map(s.update(i, p)) == assoc_map(s).insert(p.0, p.1),
        unique_keys(s.update(i, p)),
    decreases s.len(),
{
    let t = s.update(i, p);
    assert forall|x: int, y: int| 0 <= x < y < t.len() implies (#[trigger] t[x]).0 != (
    #[trigger] t[y]).0 by {
        assert(s[x].0 != s[y].0);
    }
    if i == s.len() - 1 {
        assert(t.drop_last() =~= s.drop_last());
        assert(t.last() == p);
        assert(assoc_map(s).insert(p.0, p.1) =~= assoc_map(s.drop_last()).insert(p.0, p.1));
    } else {
        let dl = s.drop_last();
        assert(unique_keys(dl));
        assert(dl[i] == s[i]);
        lemma_assoc_map_update(dl, i, p);
        assert(t.drop_last() =~= dl.update(i, p));
        assert(t.last() == s.last());
        assert(s[i].0 != s.last().0);
        assert(assoc_map(dl).insert(p.0, p.1).insert(s.last().0, s.last().1) =~= assoc_map(
            dl,
        ).insert(s.last().0, s.last().1).insert(p.0, p.1));
    }
}

/// Lengthening a prefix by one pair adds exactly that pair's key.
pub proof fn lemma_has_key_take_step<K, V>(s: Seq<(K, V)>, j: int)
    requires
        0 <= j < s.len(),
    ensures
        forall|k: K| #[trigger] has_key(s.take(j + 1), k) <==> has_key(s.take(j), k) || s[j].0
            == k,
{
    assert forall|k: K| #[trigger] has_key(s.take(j + 1), k) implies has_key(s.take(j), k) || s[j].0
        == k by {
        let i = choose|i: int| 0 <= i < s.take(j + 1).len() && (#[trigger] s.take(j + 1)[i]).0 == k;
        if i < j {
            assert(s.take(j)[i].0 == k);
        }
    }
    assert forall|k: K| has_key(s.take(j), k) || s[j].0 == k implies #[trigger] has_key(
        s.take(j + 1),
        k,
    ) by {
        if has_key(s.take(j), k) {
            let i = choose|i: int| 0 <= i < s.take(j).len() && (#[trigger] s.take(j)[i]).0 == k;
            assert(s.take(j + 1)[i].0 == k);
        } else {
            assert(s.take(j + 1)[j].0 == k);
        }
    }
}

/// A prefix of a sequence with distinct keys describes a submap.
pub proof fn lemma_assoc_prefix_submap<K, V>(s: Seq<(K, V)>, n: int)
    requires
        unique_keys(s),
        0 <= n <= s.len(),
    ensures
        forall|k: K| #[trigger] assoc_map(s.take(n)).dom().contains(k) ==> assoc_map(
            s,
        ).dom().contains(k) && assoc_map(s.take(n))[k] == assoc_map(s)[k],
{
    let t = s.take(n);
    assert(unique_keys(t));
    lemma_assoc_map_dom(t);
    assert forall|k: K| #[trigger] assoc_map(t).dom().contains(k) implies assoc_map(
        s,
    ).dom().contains(k) && assoc_map(t)[k] == assoc_map(s)[k] by {
        let i = choose|i: int| 0 <= i < t.len() && (#[trigger] t[i]).0 == k;
        assert(s[i].0 == k);
        lemma_assoc_map_index(t, i);
        lemma_assoc_map_index(s, i);
    }
}

/// Removing a present key takes away exactly its contribution to the sum.
pub proof fn lemma_map_sum_remove<K>(m: Map<K, u32>, k: K)
    requires
        m.dom().finite(),
        m.dom().contains(k),
    ensures
        map_sum(m) == map_sum(m.remove(k)) + m[k],
    decreases m.dom().len(),
{
    let c = m.dom().choose();
    if c == k {
    } else {
        let m1 = m.remove(c);
        lemma_map_sum_remove(m1, k);
        lemma_map_sum_remove(m.remove(k), c);
        assert(m.remove(k).remove(c) =~= m1.remove(k));
    }
}

/// Inserting a fresh key adds exactly its value to the sum.
pub proof fn lemma_map_sum_insert<K>(m: Map<K, u32>, k: K, v: u32)
    requires
        m.dom().finite(),
        !m.dom().contains(k),
    ensures
        map_sum(m.insert(k, v)) == map_sum(m) + v,
{
    lemma_map_sum_remove(m.insert(k, v), k);
    assert(m.insert(k, v).remove(k) =~= m);
}

/// A sum of magnitudes is never negative.
pub proof fn lemma_map_sum_nonneg<K>(m: Map<K, u32>)
    requires
        m.dom().finite(),
    ensures
        map_sum(m) >= 0,
    decreases m.dom().len(),
{
    if m.dom().len() > 0 {
        lemma_map_sum_nonneg(m.remove(m.dom().choose()));
    }
}

/// A map dominated pointwise on a smaller domain has the smaller sum.
pub proof fn lemma_map_sum_le<K>(a: Map<K, u32>, b: Map<K, u32>)
    requires
        a.dom().finite(),
        b.dom().finite(),
        a.dom().subset_of(b.dom()),
        forall|k: K| #[trigger] a.dom().contains(k) ==> a[k] <= b[k],
    ensures
        map_sum(a) <= map_sum(b),
    decreases a.dom().len(),
{
    if a.dom().len() == 0 {
        lemma_map_sum_nonneg(b);
    } else {
        let k = a.dom().choose();
        lemma_map_sum_remove(a, k);
        lemma_map_sum_remove(b, k);
        lemma_map_sum_le(a.remove(k), b.remove(k));
    }
}

/// The pointwise-maximum join is commutative.
pub proof fn lemma_join_max_commutes<K>(a: Map<K, u32>, b: Map<K, u32>)
    ensures
        join_max(a, b) == join_max(b, a),
{
    assert(join_max(a, b) =~= join_max(b, a));
}

/// The pointwise-maximum join is associative.
pub proof fn lemma_join_max_assoc<K>(a: Map<K, u32>, b: Map<K, u32>, c: Map<K, u32>)
    ensures
        join_max(join_max(a, b), c) == join_max(a, join_max(b, c)),
{
    assert(join_max(join_max(a, b), c) =~= join_max(a, join_max(b, c)));
}

/// Joining a map with itself gives the map back.
pub proof fn lemma_join_max_idem<K>(a: Map<K, u32>)
    ensures
        join_max(a, a) == a,
{
    assert(join_max(a, a) =~= a);
}

/// The join of two finite maps is finite.
pub proof fn lemma_join_max_finite<K>(a: Map<K, u32>, b: Map<K, u32>)
    requires
        a.dom().finite(),
        b.dom().finite(),
    ensures
        join_max(a, b).dom().finite(),
{
    assert(join_max(a, b).dom() =~= a.dom() + b.dom());
}

} // verus!
