//! A bounded grow/shrink counter partitioned by replica.
//!
//! Each replica owns one grow magnitude and one shrink magnitude; the
//! derived value is the total grown minus the total shrunk.  A replica
//! only ever shrinks up to what it has grown, so the value never goes
//! negative.  Merging takes the per-replica maximum of both maps,
//! which makes the type a join semilattice.

use crate::maps::{
    assoc_map, get_or_zero, has_key, join_max, lemma_assoc_map_dom, lemma_assoc_map_index,
    lemma_assoc_map_push, lemma_assoc_map_update, lemma_assoc_prefix_submap,
    lemma_has_key_take_step, lemma_join_max_assoc, lemma_join_max_commutes, lemma_join_max_finite,
    lemma_join_max_idem, lemma_map_sum_insert, lemma_map_sum_le, lemma_unique_push, map_sum,
    max_u32, unique_keys,
};
use vstd::prelude::*;

verus! {

/// Mathematical model of a bounded counter: two per-replica magnitude
/// maps, `grown` and `shrunk`.
#[verifier::ext_equal]
pub ghost struct CounterModel {
    pub grown: Map<u128, u32>,
    pub shrunk: Map<u128, u32>,
}

/// What every reachable counter satisfies: shrink magnitudes exist
/// only where grow magnitudes do, and never exceed them.
pub open spec fn counter_wf(c: CounterModel) -> bool {
    &&& c.grown.dom().finite()
    &&& c.shrunk.dom().finite()
    &&& c.shrunk.dom().subset_of(c.grown.dom())
    &&& forall|r: u128| #[trigger] c.shrunk.dom().contains(r) ==> c.shrunk[r] <= c.grown[r]
}

/// The derived value of a counter: total grown minus total shrunk.
pub open spec fn counter_value(c: CounterModel) -> int {
    map_sum(c.grown) - map_sum(c.shrunk)
}

/// The join of two counters: pointwise maximum on both maps.
pub open spec fn counter_merged(a: CounterModel, b: CounterModel) -> CounterModel {
    CounterModel { grown: join_max(a.grown, b.grown), shrunk: join_max(a.shrunk, b.shrunk) }
}

/// A counter after `r` grows it by `amt`: the grow magnitude rises,
/// unless the addition would overflow, in which case nothing changes.
pub open spec fn counter_incremented(c: CounterModel, r: u128, amt: u32) -> CounterModel {
    if get_or_zero(c.grown, r) + amt <= u32::MAX {
        CounterModel {
            grown: c.grown.insert(r, (get_or_zero(c.grown, r) + amt) as u32),
            shrunk: c.shrunk,
        }
    } else {
        c
    }
}

/// A counter after `r` shrinks it by `amt`: the shrink magnitude
/// rises, clamped to the replica's grow magnitude; if the addition
/// itself would overflow, the magnitudes stay.  Either way a zero
/// entry is recorded for `r` where none existed.
pub open spec fn counter_decremented(c: CounterModel, r: u128, amt: u32) -> CounterModel {
    let g0 = get_or_zero(c.grown, r);
    let s0 = get_or_zero(c.shrunk, r);
    CounterModel {
        grown: c.grown.insert(r, g0),
        shrunk: c.shrunk.insert(
            r,
            if s0 + amt > u32::MAX {
                s0
            } else if s0 + amt > g0 {
                g0
            } else {
                (s0 + amt) as u32
            },
        ),
    }
}

/// The model of a freshly created counter.
pub open spec fn counter_empty() -> CounterModel {
    CounterModel { grown: Map::empty(), shrunk: Map::empty() }
}

/// The lattice partial order: every magnitude of `a` is at most the
/// corresponding magnitude of `b` (absent entries taken as zero).
pub open spec fn counter_le(a: CounterModel, b: CounterModel) -> bool {
    &&& forall|r: u128| #[trigger] a.grown.dom().contains(r) ==> a.grown[r] <= get_or_zero(
        b.grown,
        r,
    )
    &&& forall|r: u128| #[trigger] a.shrunk.dom().contains(r) ==> a.shrunk[r] <= get_or_zero(
        b.shrunk,
        r,
    )
}

/// A per-item quantity counter that can grow and shrink but whose
/// value never goes negative, replicated without coordination.
pub struct BoundedPNCounterv2 {
    /// Per-replica grow magnitudes.
    pub positive_count: Vec<(u128, u32)>,
    /// Per-replica shrink magnitudes.
    pub negative_count: Vec<(u128, u32)>,
}

impl View for BoundedPNCounterv2 {
    type V = CounterModel;

    open spec fn view(&self) -> CounterModel {
        CounterModel {
            grown: assoc_map(self.positive_count@),
            shrunk: assoc_map(self.negative_count@),
        }
    }
}

impl Clone for BoundedPNCounterv2 {
    fn clone(&self) -> (r: Self)
        ensures
            r.positive_count@ == self.positive_count@,
            r.negative_count@ == self.negative_count@,
            r@ == self@,
            r.well_formed() == self.well_formed(),
    {
        BoundedPNCounterv2 {
            positive_count: vec_copy(&self.positive_count),
            negative_count: vec_copy(&self.negative_count),
        }
    }
}

/// An element-for-element copy of a magnitude vector.
pub(crate) fn vec_copy(v: &Vec<(u128, u32)>) -> (r: Vec<(u128, u32)>)
    ensures
        r@ == v@,
{
    let mut out: Vec<(u128, u32)> = Vec::new();
    let mut i: usize = 0;
    while i < v.len()
        invariant
            0 <= i <= v@.len(),
            out@ == v@.take(i as int),
        decreases v@.len() - i,
    {
        out.push(v[i]);
        proof {
            assert(out@ =~= v@.take(i as int + 1));
        }
        i += 1;
    }
    proof {
        assert(v@.take(v@.len() as int) =~= v@);
    }
    out
}

/// The value stored under `key`, or zero when the key is absent.
pub(crate) fn vec_get(v: &Vec<(u128, u32)>, key: u128) -> (r: u32)
    requires
        unique_keys(v@),
    ensures
        r == get_or_zero(assoc_map(v@), key),
{
    proof {
        lemma_assoc_map_dom(v@);
    }
    let mut i: usize = 0;
    while i < v.len()
        invariant
            0 <= i <= v@.len(),
            unique_keys(v@),
            forall|j: int| 0 <= j < i ==> (#[trigger] v@[j]).0 != key,
        decreases v@.len() - i,
    {
        if v[i].0 == key {
            proof {
                lemma_assoc_map_index(v@, i as int);
            }
            return v[i].1;
        }
        i += 1;
    }
    proof {
        assert(!has_key(v@, key));
    }
    0
}

/// Whether the vector holds an entry for `key`.
pub(crate) fn vec_has(v: &Vec<(u128, u32)>, key: u128) -> (r: bool)
    ensures
        r == assoc_map(v@).dom().contains(key),
{
    proof {
        lemma_assoc_map_dom(v@);
    }
    let mut i: usize = 0;
    while i < v.len()
        invariant
            0 <= i <= v@.len(),
            forall|j: int| 0 <= j < i ==> (#[trigger] v@[j]).0 != key,
        decreases v@.len() - i,
    {
        if v[i].0 == key {
            proof {
                lemma_assoc_map_dom(v@);
                assert(has_key(v@, key));
                assert(assoc_map(v@).dom().contains(key));
            }
            return true;
        }
        i += 1;
    }
    proof {
        assert(!has_key(v@, key));
    }
    false
}

/// Stores `val` under `key`, replacing an existing entry or appending
/// a new one.
pub(crate) fn vec_put(v: &mut Vec<(u128, u32)>, key: u128, val: u32)
    requires
        unique_keys(old(v)@),
    ensures
        unique_keys(final(v)@),
        assoc_map(final(v)@) == assoc_map(old(v)@).insert(key, val),
{
    let mut i: usize = 0;
    while i < v.len()
        invariant
            0 <= i <= v@.len(),
            v == old(v),
            unique_keys(v@),
            forall|j: int| 0 <= j < i ==> (#[trigger] v@[j]).0 != key,
        decreases v@.len() - i,
    {
        if v[i].0 == key {
            let ghost s = v@;
            v.set(i, (key, val));
            proof {
                lemma_assoc_map_update(s, i as int, (key, val));
            }
            return ;
        }
        i += 1;
    }
    proof {
        assert(!has_key(v@, key));
        lemma_assoc_map_push(v@, (key, val));
        lemma_unique_push(v@, (key, val));
    }
    v.push((key, val));
}

/// Builds the pointwise-maximum join of two magnitude vectors.
pub(crate) fn vec_join(a: &Vec<(u128, u32)>, b: &Vec<(u128, u32)>) -> (r: Vec<(u128, u32)>)
    requires
        unique_keys(a@),
        unique_keys(b@),
    ensures
        unique_keys(r@),
        assoc_map(r@) == join_max(assoc_map(a@), assoc_map(b@)),
{
    let ghost am = assoc_map(a@);
    let ghost bm = assoc_map(b@);
    proof {
        lemma_assoc_map_dom(a@);
        lemma_assoc_map_dom(b@);
    }
    let mut out: Vec<(u128, u32)> = Vec::new();
    let mut i: usize = 0;
    while i < a.len()
        invariant
            0 <= i <= a@.len(),
            unique_keys(a@),
            unique_keys(b@),
            am == assoc_map(a@),
            bm == assoc_map(b@),
            am.dom().finite(),
            unique_keys(out@),
            forall|k: u128| #[trigger] assoc_map(out@).dom().contains(k) <==> has_key(
                a@.take(i as int),
                k,
            ),
            forall|k: u128| #[trigger] assoc_map(out@).dom().contains(k) ==> assoc_map(out@)[k]
                == max_u32(get_or_zero(am, k), get_or_zero(bm, k)),
        decreases a@.len() - i,
    {
        let key = a[i].0;
        let bv = vec_get(b, key);
        let joined = if a[i].1 >= bv {
            a[i].1
        } else {
            bv
        };
        proof {
            lemma_assoc_map_dom(out@);
            lemma_assoc_map_index(a@, i as int);
            if has_key(a@.take(i as int), key) {
                let j = choose|j: int|
                    0 <= j < a@.take(i as int).len() && (#[trigger] a@.take(i as int)[j]).0 == key;
                assert(a@[j].0 == a@[i as int].0);
                assert(false);
            }
            assert(!assoc_map(out@).dom().contains(key));
            assert(!has_key(out@, key));
            lemma_assoc_map_push(out@, (key, joined));
            lemma_unique_push(out@, (key, joined));
            lemma_has_key_take_step(a@, i as int);
        }
        out.push((key, joined));
        i += 1;
    }
    proof {
        assert(a@.take(a@.len() as int) =~= a@);
    }
    let mut j: usize = 0;
    while j < b.len()
        invariant
            0 <= j <= b@.len(),
            unique_keys(a@),
            unique_keys(b@),
            am == assoc_map(a@),
            bm == assoc_map(b@),
            unique_keys(out@),
            forall|k: u128| #[trigger] assoc_map(out@).dom().contains(k) <==> am.dom().contains(k)
                || has_key(b@.take(j as int), k),
            forall|k: u128| #[trigger] assoc_map(out@).dom().contains(k) ==> assoc_map(out@)[k]
                == max_u32(get_or_zero(am, k), get_or_zero(bm, k)),
        decreases b@.len() - j,
    {
        let key = b[j].0;
        proof {
            lemma_assoc_map_dom(out@);
            lemma_assoc_map_index(b@, j as int);
            lemma_has_key_take_step(b@, j as int);
        }
        if !vec_has(a, key) {
            proof {
                if has_key(b@.take(j as int), key) {
                    let x = choose|x: int|
                        0 <= x < b@.take(j as int).len() && (#[trigger] b@.take(j as int)[x]).0
                            == key;
                    assert(b@[x].0 == b@[j as int].0);
                    assert(false);
                }
                assert(!assoc_map(out@).dom().contains(key));
                assert(!has_key(out@, key));
                lemma_assoc_map_push(out@, (key, b@[j as int].1));
                lemma_unique_push(out@, (key, b@[j as int].1));
            }
            out.push((key, b[j].1));
        }
        j += 1;
    }
    proof {
        assert(b@.take(b@.len() as int) =~= b@);
        lemma_assoc_map_dom(out@);
        assert(assoc_map(out@) =~= join_max(am, bm));
    }
    out
}

/// Whether two magnitude vectors describe the same map.
pub(crate) fn buckets_equal(a: &Vec<(u128, u32)>, b: &Vec<(u128, u32)>) -> (r: bool)
    requires
        unique_keys(a@),
        unique_keys(b@),
    ensures
        r == (assoc_map(a@) == assoc_map(b@)),
{
    let ghost am = assoc_map(a@);
    let ghost bm = assoc_map(b@);
    let mut i: usize = 0;
    while i < a.len()
        invariant
            0 <= i <= a@.len(),
            unique_keys(a@),
            unique_keys(b@),
            am == assoc_map(a@),
            bm == assoc_map(b@),
            forall|j: int| 0 <= j < i ==> bm.dom().contains((#[trigger] a@[j]).0) && bm[a@[j].0]
                == a@[j].1,
        decreases a@.len() - i,
    {
        proof {
            lemma_assoc_map_index(a@, i as int);
        }
        if !vec_has(b, a[i].0) {
            return false;
        }
        if vec_get(b, a[i].0) != a[i].1 {
            return false;
        }
        i += 1;
    }
    let mut j: usize = 0;
    while j < b.len()
        invariant
            0 <= j <= b@.len(),
            unique_keys(a@),
            unique_keys(b@),
            am == assoc_map(a@),
            bm == assoc_map(b@),
            forall|x: int| 0 <= x < j ==> am.dom().contains((#[trigger] b@[x]).0),
        decreases b@.len() - j,
    {
        proof {
            lemma_assoc_map_index(b@, j as int);
        }
        if !vec_has(a, b[j].0) {
            return false;
        }
        j += 1;
    }
    proof {
        lemma_assoc_map_dom(a@);
        lemma_assoc_map_dom(b@);
        assert forall|k: u128| #[trigger] am.dom().contains(k) implies bm.dom().contains(k) && am[k]
            == bm[k] by {
            let x = choose|x: int| 0 <= x < a@.len() && (#[trigger] a@[x]).0 == k;
            lemma_assoc_map_index(a@, x);
        }
        assert forall|k: u128| #[trigger] bm.dom().contains(k) implies am.dom().contains(k) by {
            let x = choose|x: int| 0 <= x < b@.len() && (#[trigger] b@[x]).0 == k;
        }
        assert(am =~= bm);
    }
    true
}

/// Sums all magnitudes held in the vector.
pub(crate) fn vec_sum(v: &Vec<(u128, u32)>) -> (r: u32)
    requires
        unique_keys(v@),
        map_sum(assoc_map(v@)) <= u32::MAX,
    ensures
        r as int == map_sum(assoc_map(v@)),
{
    let ghost full = assoc_map(v@);
    proof {
        lemma_assoc_map_dom(v@);
    }
    let mut acc: u32 = 0;
    let mut i: usize = 0;
    while i < v.len()
        invariant
            0 <= i <= v@.len(),
            unique_keys(v@),
            full == assoc_map(v@),
            map_sum(full) <= u32::MAX,
            acc as int == map_sum(assoc_map(v@.take(i as int))),
        decreases v@.len() - i,
    {
        proof {
            lemma_assoc_map_dom(v@);
            let pre = v@.take(i as int);
            let post = v@.take(i as int + 1);
            assert(unique_keys(pre));
            assert(post =~= pre.push(v@[i as int]));
            lemma_assoc_map_dom(pre);
            if has_key(pre, v@[i as int].0) {
                let j = choose|j: int| 0 <= j < pre.len() && (#[trigger] pre[j]).0 == v@[
                    i as int].0;
                assert(v@[j].0 == v@[i as int].0);
                assert(false);
            }
            lemma_assoc_map_push(pre, v@[i as int]);
            lemma_map_sum_insert(assoc_map(pre), v@[i as int].0, v@[i as int].1);
            assert(unique_keys(post));
            lemma_assoc_map_dom(post);
            lemma_assoc_prefix_submap(v@, i as int + 1);
            lemma_map_sum_le(assoc_map(post), full);
        }
        acc = acc + v[i].1;
        i += 1;
    }
    proof {
        assert(v@.take(v@.len() as int) =~= v@);
    }
    acc
}

impl BoundedPNCounterv2 {
    /// Representation and lattice invariant: distinct replica keys and
    /// a well-formed model.
    pub open spec fn well_formed(&self) -> bool {
        &&& unique_keys(self.positive_count@)
        &&& unique_keys(self.negative_count@)
        &&& counter_wf(self@)
    }

    /// Creates an empty counter: no replica has grown or shrunk.
    pub fn new() -> (r: Self)
        ensures
            r.well_formed(),
            r@ == counter_empty(),
            r@.grown == Map::<u128, u32>::empty(),
            r@.shrunk == Map::<u128, u32>::empty(),
    {
        let r = BoundedPNCounterv2 { positive_count: Vec::new(), negative_count: Vec::new() };
        proof {
            lemma_assoc_map_dom(r.positive_count@);
            lemma_assoc_map_dom(r.negative_count@);
        }
        r
    }

    /// The per-replica grow magnitudes.
    pub fn positive_count(&self) -> (r: &Vec<(u128, u32)>)
        ensures
            r@ == self.positive_count@,
    {
        &self.positive_count
    }

    /// The per-replica shrink magnitudes.
    pub fn negative_count(&self) -> (r: &Vec<(u128, u32)>)
        ensures
            r@ == self.negative_count@,
    {
        &self.negative_count
    }

    /// Adds `amount` to `node_id`'s grow magnitude.  When the addition
    /// would overflow the magnitude type, the counter is left
    /// unchanged and `false` is returned.
    pub fn increment(&mut self, node_id: u128, amount: u32) -> (applied: bool)
        requires
            old(self).well_formed(),
        ensures
            final(self).well_formed(),
            final(self)@ == counter_incremented(old(self)@, node_id, amount),
            applied == (get_or_zero(old(self)@.grown, node_id) + amount <= u32::MAX),
    {
        proof {
            lemma_assoc_map_dom(self.positive_count@);
            lemma_assoc_map_dom(self.negative_count@);
        }
        let cur = vec_get(&self.positive_count, node_id);
        if cur <= u32::MAX - amount {
            vec_put(&mut self.positive_count, node_id, cur + amount);
            proof {
                assert(final(self)@ =~= counter_incremented(old(self)@, node_id, amount));
                assert(final(self)@.grown.dom() =~= old(self)@.grown.dom().insert(node_id));
            }
            true
        } else {
            false
        }
    }

    /// Adds `amount` to `node_id`'s shrink magnitude, clamped so that
    /// it never exceeds that replica's grow magnitude.  When the
    /// addition itself would overflow, the magnitudes are left
    /// unchanged and `false` is returned.  Looking the entry up
    /// creates it, so a zero entry is recorded for `node_id` in both
    /// maps where none exists.
    pub fn decrement(&mut self, node_id: u128, amount: u32) -> (applied: bool)
        requires
            old(self).well_formed(),
        ensures
            final(self).well_formed(),
            final(self)@ == counter_decremented(old(self)@, node_id, amount),
            applied == (get_or_zero(old(self)@.shrunk, node_id) + amount <= u32::MAX),
    {
        proof {
            lemma_assoc_map_dom(self.positive_count@);
            lemma_assoc_map_dom(self.negative_count@);
        }
        let g0 = vec_get(&self.positive_count, node_id);
        let s0 = vec_get(&self.negative_count, node_id);
        vec_put(&mut self.positive_count, node_id, g0);
        if s0 > u32::MAX - amount {
            vec_put(&mut self.negative_count, node_id, s0);
            proof {
                assert(final(self)@ =~= counter_decremented(old(self)@, node_id, amount));
                assert(final(self)@.shrunk.dom() =~= old(self)@.shrunk.dom().insert(node_id));
                assert(final(self)@.grown.dom() =~= old(self)@.grown.dom().insert(node_id));
            }
            false
        } else {
            let cand = s0 + amount;
            let newv = if cand > g0 {
                g0
            } else {
                cand
            };
            vec_put(&mut self.negative_count, node_id, newv);
            proof {
                assert(final(self)@ =~= counter_decremented(old(self)@, node_id, amount));
                assert(final(self)@.shrunk.dom() =~= old(self)@.shrunk.dom().insert(node_id));
                assert(final(self)@.grown.dom() =~= old(self)@.grown.dom().insert(node_id));
            }
            true
        }
    }

    /// The derived value: total grown minus total shrunk, never
    /// negative.
    pub fn get_count(&self) -> (r: u32)
        requires
            self.well_formed(),
            map_sum(self@.grown) <= u32::MAX,
        ensures
            r as int == counter_value(self@),
    {
        proof {
            lemma_counter_value_nonneg(self@);
            lemma_map_sum_le(self@.shrunk, self@.grown);
        }
        let pos = vec_sum(&self.positive_count);
        let neg = vec_sum(&self.negative_count);
        pos - neg
    }

    /// Whether this counter is dominated by `other` in the lattice
    /// order: every magnitude here is at most the matching one there.
    pub fn compare(&self, inc_b_pn_counter: &BoundedPNCounterv2) -> (r: bool)
        requires
            self.well_formed(),
            inc_b_pn_counter.well_formed(),
        ensures
            r == counter_le(self@, inc_b_pn_counter@),
    {
        proof {
            lemma_assoc_map_dom(self.positive_count@);
            lemma_assoc_map_dom(self.negative_count@);
        }
        let mut i: usize = 0;
        while i < self.positive_count.len()
            invariant
                0 <= i <= self.positive_count@.len(),
                self.well_formed(),
                inc_b_pn_counter.well_formed(),
                forall|j: int| 0 <= j < i ==> (#[trigger] self.positive_count@[j]).1
                    <= get_or_zero(inc_b_pn_counter@.grown, self.positive_count@[j].0),
            decreases self.positive_count@.len() - i,
        {
            let other = vec_get(&inc_b_pn_counter.positive_count, self.positive_count[i].0);
            if self.positive_count[i].1 > other {
                proof {
                    lemma_assoc_map_index(self.positive_count@, i as int);
                }
                return false;
            }
            i += 1;
        }
        let mut i: usize = 0;
        while i < self.negative_count.len()
            invariant
                0 <= i <= self.negative_count@.len(),
                self.well_formed(),
                inc_b_pn_counter.well_formed(),
                forall|j: int| 0 <= j < i ==> (#[trigger] self.negative_count@[j]).1
                    <= get_or_zero(inc_b_pn_counter@.shrunk, self.negative_count@[j].0),
            decreases self.negative_count@.len() - i,
        {
            let other = vec_get(&inc_b_pn_counter.negative_count, self.negative_count[i].0);
            if self.negative_count[i].1 > other {
                proof {
                    lemma_assoc_map_index(self.negative_count@, i as int);
                }
                return false;
            }
            i += 1;
        }
        proof {
            assert forall|r: u128| #[trigger] self@.grown.dom().contains(r) implies self@.grown[r]
                <= get_or_zero(inc_b_pn_counter@.grown, r) by {
                let j = choose|j: int|
                    0 <= j < self.positive_count@.len() && (#[trigger] self.positive_count@[j]).0
                        == r;
                lemma_assoc_map_index(self.positive_count@, j);
            }
            assert forall|r: u128| #[trigger] self@.shrunk.dom().contains(r) implies self@.shrunk[r]
                <= get_or_zero(inc_b_pn_counter@.shrunk, r) by {
                let j = choose|j: int|
                    0 <= j < self.negative_count@.len() && (#[trigger] self.negative_count@[j]).0
                        == r;
                lemma_assoc_map_index(self.negative_count@, j);
            }
        }
        true
    }

    /// Whether two counters carry the same per-replica magnitudes:
    /// equality of the mathematical models, regardless of storage
    /// order.
    pub fn same_state(&self, other: &BoundedPNCounterv2) -> (r: bool)
        requires
            self.well_formed(),
            other.well_formed(),
        ensures
            r == (self@ == other@),
    {
        let pos = buckets_equal(&self.positive_count, &other.positive_count);
        if !pos {
            return false;
        }
        buckets_equal(&self.negative_count, &other.negative_count)
    }

    /// The join of two counters: for every replica, the maximum of the
    /// two grow magnitudes and the maximum of the two shrink
    /// magnitudes.
    pub fn merge(&self, other: &BoundedPNCounterv2) -> (r: BoundedPNCounterv2)
        requires
            self.well_formed(),
            other.well_formed(),
        ensures
            r.well_formed(),
            r@ == counter_merged(self@, other@),
    {
        let merged = BoundedPNCounterv2 {
            positive_count: vec_join(&self.positive_count, &other.positive_count),
            negative_count: vec_join(&self.negative_count, &other.negative_count),
        };
        proof {
            lemma_counter_merged_wf(self@, other@);
        }
        merged
    }
}

/// The derived value of a well-formed counter is never negative: each
/// replica's shrink magnitude is bounded by its grow magnitude, so the
/// total shrunk is bounded by the total grown.
pub proof fn lemma_counter_value_nonneg(c: CounterModel)
    requires
        counter_wf(c),
    ensures
        counter_value(c) >= 0,
{
    lemma_map_sum_le(c.shrunk, c.grown);
}

/// Merging two well-formed counters yields a well-formed counter.
pub proof fn lemma_counter_merged_wf(a: CounterModel, b: CounterModel)
    requires
        counter_wf(a),
        counter_wf(b),
    ensures
        counter_wf(counter_merged(a, b)),
{
    let m = counter_merged(a, b);
    lemma_join_max_finite(a.grown, b.grown);
    lemma_join_max_finite(a.shrunk, b.shrunk);
    assert forall|r: u128| #[trigger] m.shrunk.dom().contains(r) implies m.grown.dom().contains(r)
        && m.shrunk[r] <= m.grown[r] by {
        assert(get_or_zero(a.shrunk, r) <= get_or_zero(a.grown, r));
        assert(get_or_zero(b.shrunk, r) <= get_or_zero(b.grown, r));
    }
}

/// Merge law: merging is commutative.
pub proof fn lemma_counter_merge_commutes(a: CounterModel, b: CounterModel)
    ensures
        counter_merged(a, b) == counter_merged(b, a),
{
    lemma_join_max_commutes(a.grown, b.grown);
    lemma_join_max_commutes(a.shrunk, b.shrunk);
}

/// Merge law: merging is associative.
pub proof fn lemma_counter_merge_assoc(a: CounterModel, b: CounterModel, c: CounterModel)
    ensures
        counter_merged(counter_merged(a, b), c) == counter_merged(a, counter_merged(b, c)),
{
    lemma_join_max_assoc(a.grown, b.grown, c.grown);
    lemma_join_max_assoc(a.shrunk, b.shrunk, c.shrunk);
}

/// Merge law: merging a counter with itself changes nothing.
pub proof fn lemma_counter_merge_idempotent(a: CounterModel)
    ensures
        counter_merged(a, a) == a,
{
    lemma_join_max_idem(a.grown);
    lemma_join_max_idem(a.shrunk);
    assert(counter_merged(a, a) =~= a);
}

} // verus!
