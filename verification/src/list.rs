//! The baseline list: item names bound to one bounded counter each,
//! with membership decided by an add-wins set.
//!
//! The set's elements are authoritative for which names exist; counter
//! entries for names outside the set are stale and do not survive a
//! merge.

use crate::awset::{
    awset_merged, awset_wf, drop_name, lemma_awset_merge_assoc, lemma_awset_merge_commutes,
    lemma_awset_merge_idempotent, lemma_awset_merged_wf, lemma_live_names_drop,
    lemma_live_names_insert, lemma_live_of_merge_subset, live_names, merged_state, names_has,
    set_added, AWSet, AwSetModel,
};
use crate::counter::{
    counter_decremented, counter_empty, counter_incremented, counter_merged, counter_wf,
    lemma_counter_merge_assoc, lemma_counter_merge_commutes, lemma_counter_merge_idempotent,
    lemma_counter_merged_wf, BoundedPNCounterv2, CounterModel,
};
use crate::ids::fresh_node_id;
use crate::maps::{
    assoc_map, get_or_zero, has_key, lemma_assoc_map_dom, lemma_assoc_map_index,
    lemma_assoc_map_push, lemma_assoc_map_update, lemma_unique_push, unique_keys,
};
use vstd::prelude::*;

verus! {

/// Mathematical model of a list: the owning replica, the counters by
/// item name, and the membership set.
#[verifier::ext_equal]
pub ghost struct ListModel {
    pub node_id: u128,
    pub items: Map<Seq<char>, CounterModel>,
    pub awset: AwSetModel,
}

/// What every reachable list satisfies: a well-formed set, counters
/// for exactly the live names, and every counter well-formed.
pub open spec fn list_wf(m: ListModel) -> bool {
    &&& awset_wf(m.awset)
    &&& m.items.dom().finite()
    &&& forall|n: Seq<char>| #[trigger] m.items.dom().contains(n) <==> live_names(
        m.awset.state,
    ).contains(n)
    &&& forall|n: Seq<char>| #[trigger] m.items.dom().contains(n) ==> counter_wf(m.items[n])
}

/// The counters after a merge: for every name live in the merged set,
/// the join of both sides' counters when both have one, otherwise the
/// one counter that exists; names with no counter on either side are
/// skipped.
pub open spec fn merged_items(a: ListModel, b: ListModel) -> Map<Seq<char>, CounterModel> {
    Map::new(
        |n: Seq<char>| live_names(merged_state(a.awset, b.awset)).contains(n) && (
        a.items.dom().contains(n) || b.items.dom().contains(n)),
        |n: Seq<char>| if a.items.dom().contains(n) && b.items.dom().contains(n) {
            counter_merged(a.items[n], b.items[n])
        } else if a.items.dom().contains(n) {
            a.items[n]
        } else {
            b.items[n]
        },
    )
}

/// The model of a merge: the local replica identity stays; the set
/// and the counters reconcile.
pub open spec fn list_merged(a: ListModel, b: ListModel) -> ListModel {
    ListModel { node_id: a.node_id, items: merged_items(a, b), awset: awset_merged(a.awset, b.awset) }
}

/// The stored item entries, seen as name/counter-model pairs.
pub open spec fn item_pairs(s: Seq<(String, BoundedPNCounterv2)>) -> Seq<(Seq<char>, CounterModel)> {
    s.map_values(|e: (String, BoundedPNCounterv2)| (e.0@, e.1@))
}

/// Every stored counter is well-formed.
pub open spec fn items_inv(s: Seq<(String, BoundedPNCounterv2)>) -> bool {
    forall|i: int| 0 <= i < s.len() ==> (#[trigger] s[i]).1.well_formed()
}

/// A replicated list of items, each with a quantity counter.
pub struct ShoppingList {
    /// The replica that owns this copy.
    pub node_id: u128,
    /// One counter per item name.
    pub items: Vec<(String, BoundedPNCounterv2)>,
    /// The membership set.
    pub awset: AWSet,
}

impl View for ShoppingList {
    type V = ListModel;

    open spec fn view(&self) -> ListModel {
        ListModel {
            node_id: self.node_id,
            items: assoc_map(item_pairs(self.items@)),
            awset: self.awset@,
        }
    }
}

/// Taking a prefix commutes with reading items as pairs.
proof fn lemma_ipairs_take(s: Seq<(String, BoundedPNCounterv2)>, i: int)
    requires
        0 <= i <= s.len(),
    ensures
        item_pairs(s.take(i)) =~= item_pairs(s).take(i),
{
}

/// Appending an item commutes with reading items as pairs.
pub(crate) proof fn lemma_ipairs_push(s: Seq<(String, BoundedPNCounterv2)>, e: (String, BoundedPNCounterv2))
    ensures
        item_pairs(s.push(e)) =~= item_pairs(s).push((e.0@, e.1@)),
{
}

/// Replacing an item commutes with reading items as pairs.
proof fn lemma_ipairs_update(
    s: Seq<(String, BoundedPNCounterv2)>,
    i: int,
    e: (String, BoundedPNCounterv2),
)
    requires
        0 <= i < s.len(),
    ensures
        item_pairs(s.update(i, e)) =~= item_pairs(s).update(i, (e.0@, e.1@)),
{
}

/// Finds the index of the entry for `name`, if the vector holds one.
pub(crate) fn items_find(v: &Vec<(String, BoundedPNCounterv2)>, name: &String) -> (r: Option<usize>)
    requires
        unique_keys(item_pairs(v@)),
    ensures
        (match r {
            Some(i) => i < v@.len() && v@[i as int].0@ == name@ && assoc_map(
                item_pairs(v@),
            ).dom().contains(name@) && assoc_map(item_pairs(v@))[name@] == v@[i as int].1@,
            None => !assoc_map(item_pairs(v@)).dom().contains(name@),
        }),
{
    proof {
        lemma_assoc_map_dom(item_pairs(v@));
    }
    let mut i: usize = 0;
    while i < v.len()
        invariant
            0 <= i <= v@.len(),
            unique_keys(item_pairs(v@)),
            forall|j: int| 0 <= j < i ==> (#[trigger] v@[j]).0@ != name@,
        decreases v@.len() - i,
    {
        if v[i].0 == *name {
            proof {
                lemma_assoc_map_index(item_pairs(v@), i as int);
            }
            return Some(i);
        }
        i += 1;
    }
    proof {
        lemma_assoc_map_dom(item_pairs(v@));
        if has_key(item_pairs(v@), name@) {
            let j = choose|j: int|
                0 <= j < item_pairs(v@).len() && (#[trigger] item_pairs(v@)[j]).0 == name@;
            assert(v@[j].0@ == name@);
            assert(false);
        }
    }
    None
}

/// An element-for-element copy of an item vector, pair views and
/// counter invariants preserved.
pub(crate) fn items_copy(v: &Vec<(String, BoundedPNCounterv2)>) -> (r: Vec<(String, BoundedPNCounterv2)>)
    ensures
        r@.len() == v@.len(),
        item_pairs(r@) == item_pairs(v@),
        items_inv(r@) == items_inv(v@),
{
    let mut out: Vec<(String, BoundedPNCounterv2)> = Vec::new();
    let mut i: usize = 0;
    while i < v.len()
        invariant
            0 <= i <= v@.len(),
            out@.len() == i,
            item_pairs(out@) =~= item_pairs(v@.take(i as int)),
            forall|j: int|
                0 <= j < i ==> (#[trigger] out@[j]).1.well_formed() == v@[j].1.well_formed(),
        decreases v@.len() - i,
    {
        let entry = (v[i].0.clone(), v[i].1.clone());
        proof {
            assert(entry.0@ == v@[i as int].0@);
            assert(entry.1@ == v@[i as int].1@);
        }
        out.push(entry);
        proof {
            lemma_ipairs_take(v@, i as int + 1);
            lemma_ipairs_take(v@, i as int);
            lemma_ipairs_push(out@.drop_last(), entry);
            assert(item_pairs(out@) =~= item_pairs(v@.take(i as int + 1)));
        }
        i += 1;
    }
    proof {
        assert(v@.take(v@.len() as int) =~= v@);
        lemma_ipairs_take(v@, v@.len() as int);
        if items_inv(v@) {
            assert forall|j: int| 0 <= j < out@.len() implies (
            #[trigger] out@[j]).1.well_formed() by {
                assert(v@[j].1.well_formed());
            }
        }
        if items_inv(out@) {
            assert forall|j: int| 0 <= j < v@.len() implies (#[trigger] v@[j]).1.well_formed() by {
                assert(out@[j].1.well_formed());
            }
        }
    }
    out
}

/// Whether two item vectors describe the same name-to-counter map.
pub(crate) fn items_equal(
    a: &Vec<(String, BoundedPNCounterv2)>,
    b: &Vec<(String, BoundedPNCounterv2)>,
) -> (r: bool)
    requires
        unique_keys(item_pairs(a@)),
        items_inv(a@),
        unique_keys(item_pairs(b@)),
        items_inv(b@),
    ensures
        r == (assoc_map(item_pairs(a@)) == assoc_map(item_pairs(b@))),
{
    let ghost am = assoc_map(item_pairs(a@));
    let ghost bm = assoc_map(item_pairs(b@));
    let mut i: usize = 0;
    while i < a.len()
        invariant
            0 <= i <= a@.len(),
            unique_keys(item_pairs(a@)),
            items_inv(a@),
            unique_keys(item_pairs(b@)),
            items_inv(b@),
            am == assoc_map(item_pairs(a@)),
            bm == assoc_map(item_pairs(b@)),
            forall|j: int| 0 <= j < i ==> {
                let n = (#[trigger] a@[j]).0@;
                bm.dom().contains(n) && bm[n] == a@[j].1@
            },
        decreases a@.len() - i,
    {
        proof {
            lemma_assoc_map_index(item_pairs(a@), i as int);
        }
        let found = items_find(b, &a[i].0);
        match found {
            Some(j) => {
                let eq = a[i].1.same_state(&b[j].1);
                if !eq {
                    return false;
                }
            },
            None => {
                return false;
            },
        }
        i += 1;
    }
    let mut j: usize = 0;
    while j < b.len()
        invariant
            0 <= j <= b@.len(),
            unique_keys(item_pairs(a@)),
            unique_keys(item_pairs(b@)),
            am == assoc_map(item_pairs(a@)),
            bm == assoc_map(item_pairs(b@)),
            forall|x: int| 0 <= x < j ==> am.dom().contains((#[trigger] b@[x]).0@),
        decreases b@.len() - j,
    {
        proof {
            lemma_assoc_map_index(item_pairs(b@), j as int);
        }
        let found = items_find(a, &b[j].0);
        match found {
            Some(_) => {
            },
            None => {
                return false;
            },
        }
        j += 1;
    }
    proof {
        lemma_assoc_map_dom(item_pairs(a@));
        lemma_assoc_map_dom(item_pairs(b@));
        assert forall|n: Seq<char>| #[trigger] am.dom().contains(n) implies bm.dom().contains(n)
            && am[n] == bm[n] by {
            let x = choose|x: int|
                0 <= x < item_pairs(a@).len() && (#[trigger] item_pairs(a@)[x]).0 == n;
            lemma_assoc_map_index(item_pairs(a@), x);
        }
        assert forall|n: Seq<char>| #[trigger] bm.dom().contains(n) implies am.dom().contains(
            n,
        ) by {
            let x = choose|x: int|
                0 <= x < item_pairs(b@).len() && (#[trigger] item_pairs(b@)[x]).0 == n;
        }
        assert(am =~= bm);
    }
    true
}

/// A copy of the bucket without the entry for `name`.
pub(crate) fn bucket_without(v: &Vec<(String, BoundedPNCounterv2)>, name: &String) -> (r: Vec<
    (String, BoundedPNCounterv2),
>)
    requires
        unique_keys(item_pairs(v@)),
        items_inv(v@),
    ensures
        unique_keys(item_pairs(r@)),
        items_inv(r@),
        assoc_map(item_pairs(r@)) == assoc_map(item_pairs(v@)).remove(name@),
{
    let ghost s0 = v@;
    let ghost n = name@;
    let mut kept: Vec<(String, BoundedPNCounterv2)> = Vec::new();
    let mut i: usize = 0;
    while i < v.len()
        invariant
            0 <= i <= v@.len(),
            s0 == v@,
            n == name@,
            unique_keys(item_pairs(s0)),
            items_inv(s0),
            unique_keys(item_pairs(kept@)),
            items_inv(kept@),
            forall|k: Seq<char>| #[trigger] assoc_map(item_pairs(kept@)).dom().contains(k) <==> (
            has_key(item_pairs(s0).take(i as int), k) && k != n),
            forall|k: Seq<char>| #[trigger] assoc_map(item_pairs(kept@)).dom().contains(k)
                ==> assoc_map(item_pairs(kept@))[k] == assoc_map(item_pairs(s0))[k],
        decreases v@.len() - i,
    {
        let same = v[i].0 == *name;
        proof {
            lemma_assoc_map_dom(item_pairs(kept@));
            crate::maps::lemma_has_key_take_step(item_pairs(s0), i as int);
            lemma_assoc_map_index(item_pairs(s0), i as int);
        }
        if !same {
            proof {
                let kp = (s0[i as int].0@, s0[i as int].1@);
                if has_key(item_pairs(s0).take(i as int), kp.0) {
                    let x = choose|x: int|
                        0 <= x < item_pairs(s0).take(i as int).len() && (#[trigger] item_pairs(
                            s0,
                        ).take(i as int)[x]).0 == kp.0;
                    assert(item_pairs(s0)[x].0 == item_pairs(s0)[i as int].0);
                    assert(false);
                }
                assert(!assoc_map(item_pairs(kept@)).dom().contains(kp.0));
                assert(!has_key(item_pairs(kept@), kp.0));
                lemma_ipairs_push(kept@, (s0[i as int].0, s0[i as int].1));
                lemma_assoc_map_push(item_pairs(kept@), kp);
                lemma_unique_push(item_pairs(kept@), kp);
            }
            let entry = (v[i].0.clone(), v[i].1.clone());
            proof {
                assert(entry.0@ == s0[i as int].0@);
                assert(entry.1@ == s0[i as int].1@);
                assert(item_pairs(kept@.push(entry)) =~= item_pairs(kept@).push(
                    (s0[i as int].0@, s0[i as int].1@),
                ));
            }
            kept.push(entry);
        }
        i += 1;
    }
    proof {
        assert(item_pairs(s0).take(s0.len() as int) =~= item_pairs(s0));
        lemma_assoc_map_dom(item_pairs(s0));
        lemma_assoc_map_dom(item_pairs(kept@));
        assert(assoc_map(item_pairs(kept@)) =~= assoc_map(item_pairs(s0)).remove(n));
    }
    kept
}

/// Applies a quantity change to the counter stored under `name`,
/// creating the entry if none exists, and reports whether the change
/// was applied (an addition that would overflow is dropped; a
/// decrement may be clamped but still counts as applied).
pub(crate) fn bucket_apply(
    v: &mut Vec<(String, BoundedPNCounterv2)>,
    name: &String,
    node: u128,
    amount: u32,
    decrement: bool,
) -> (applied: bool)
    requires
        unique_keys(item_pairs(old(v)@)),
        items_inv(old(v)@),
    ensures
        unique_keys(item_pairs(final(v)@)),
        items_inv(final(v)@),
        ({
            let m0 = assoc_map(item_pairs(old(v)@));
            let c0 = if m0.dom().contains(name@) {
                m0[name@]
            } else {
                counter_empty()
            };
            let c1 = if decrement {
                counter_decremented(c0, node, amount)
            } else {
                counter_incremented(c0, node, amount)
            };
            &&& assoc_map(item_pairs(final(v)@)) == m0.insert(name@, c1)
            &&& counter_wf(c1)
            &&& applied == (if decrement {
                get_or_zero(c0.shrunk, node) + amount <= u32::MAX
            } else {
                get_or_zero(c0.grown, node) + amount <= u32::MAX
            })
        }),
{
    let ghost n = name@;
    let found = items_find(v, name);
    match found {
        Some(i) => {
            let mut c = v[i].1.clone();
            let applied = if decrement {
                c.decrement(node, amount)
            } else {
                c.increment(node, amount)
            };
            let nm = v[i].0.clone();
            let ghost s0 = v@;
            v.set(i, (nm, c));
            proof {
                lemma_ipairs_update(s0, i as int, v@[i as int]);
                lemma_assoc_map_update(item_pairs(s0), i as int, (n, v@[i as int].1@));
            }
            applied
        },
        None => {
            let mut c = BoundedPNCounterv2::new();
            let applied = if decrement {
                c.decrement(node, amount)
            } else {
                c.increment(node, amount)
            };
            let nm = name.clone();
            proof {
                lemma_assoc_map_dom(item_pairs(v@));
                assert(!has_key(item_pairs(v@), n));
                lemma_ipairs_push(v@, (nm, c));
                lemma_assoc_map_push(item_pairs(v@), (n, c@));
                lemma_unique_push(item_pairs(v@), (n, c@));
            }
            v.push((nm, c));
            applied
        },
    }
}

/// Rebuilds one counter bucket after a membership merge: for every
/// name in `names`, the join of both sides' counters when both hold
/// one, the one counter that exists otherwise; names with no counter
/// on either side are skipped.
pub(crate) fn reconcile_bucket(
    names: &Vec<String>,
    mine: &Vec<(String, BoundedPNCounterv2)>,
    theirs: &Vec<(String, BoundedPNCounterv2)>,
) -> (r: Vec<(String, BoundedPNCounterv2)>)
    requires
        forall|i: int, j: int| 0 <= i < j < names@.len() ==> (#[trigger] names@[i])@ != (
        #[trigger] names@[j])@,
        unique_keys(item_pairs(mine@)),
        items_inv(mine@),
        unique_keys(item_pairs(theirs@)),
        items_inv(theirs@),
    ensures
        unique_keys(item_pairs(r@)),
        items_inv(r@),
        forall|n: Seq<char>| #[trigger] assoc_map(item_pairs(r@)).dom().contains(n) <==> (
        names_has(names@, n) && (assoc_map(item_pairs(mine@)).dom().contains(n) || assoc_map(
            item_pairs(theirs@),
        ).dom().contains(n))),
        forall|n: Seq<char>| #[trigger] assoc_map(item_pairs(r@)).dom().contains(n) ==> assoc_map(
            item_pairs(r@),
        )[n] == (if assoc_map(item_pairs(mine@)).dom().contains(n) && assoc_map(
            item_pairs(theirs@),
        ).dom().contains(n) {
            counter_merged(assoc_map(item_pairs(mine@))[n], assoc_map(item_pairs(theirs@))[n])
        } else if assoc_map(item_pairs(mine@)).dom().contains(n) {
            assoc_map(item_pairs(mine@))[n]
        } else {
            assoc_map(item_pairs(theirs@))[n]
        }),
{
    let ghost x_map = assoc_map(item_pairs(mine@));
    let ghost y_map = assoc_map(item_pairs(theirs@));
    let mut out: Vec<(String, BoundedPNCounterv2)> = Vec::new();
    let mut x: usize = 0;
    while x < names.len()
        invariant
            0 <= x <= names@.len(),
            forall|i: int, j: int| 0 <= i < j < names@.len() ==> (#[trigger] names@[i])@ != (
            #[trigger] names@[j])@,
            unique_keys(item_pairs(mine@)),
            items_inv(mine@),
            unique_keys(item_pairs(theirs@)),
            items_inv(theirs@),
            x_map == assoc_map(item_pairs(mine@)),
            y_map == assoc_map(item_pairs(theirs@)),
            unique_keys(item_pairs(out@)),
            items_inv(out@),
            forall|n: Seq<char>| #[trigger] assoc_map(item_pairs(out@)).dom().contains(n) <==> (
            names_has(names@.take(x as int), n) && (x_map.dom().contains(n)
                || y_map.dom().contains(n))),
            forall|n: Seq<char>| #[trigger] assoc_map(item_pairs(out@)).dom().contains(n)
                ==> assoc_map(item_pairs(out@))[n] == (if x_map.dom().contains(n)
                && y_map.dom().contains(n) {
                counter_merged(x_map[n], y_map[n])
            } else if x_map.dom().contains(n) {
                x_map[n]
            } else {
                y_map[n]
            }),
        decreases names@.len() - x,
    {
        let ghost n = names@[x as int]@;
        let mi = items_find(mine, &names[x]);
        let oi = items_find(theirs, &names[x]);
        proof {
            lemma_assoc_map_dom(item_pairs(out@));
            if names_has(names@.take(x as int), n) {
                let y = choose|y: int|
                    0 <= y < names@.take(x as int).len() && (#[trigger] names@.take(
                        x as int,
                    )[y])@ == n;
                assert(names@[y]@ == names@[x as int]@);
                assert(false);
            }
            assert(!assoc_map(item_pairs(out@)).dom().contains(n));
            assert(!has_key(item_pairs(out@), n));
            assert forall|m2: Seq<char>| #[trigger] names_has(names@.take(x as int + 1), m2)
                implies names_has(names@.take(x as int), m2) || m2 == n by {
                let y = choose|y: int|
                    0 <= y < names@.take(x as int + 1).len() && (#[trigger] names@.take(
                        x as int + 1,
                    )[y])@ == m2;
                if y < x {
                    assert(names@.take(x as int)[y]@ == m2);
                }
            }
            assert forall|m2: Seq<char>| names_has(names@.take(x as int), m2) implies
                #[trigger] names_has(names@.take(x as int + 1), m2) by {
                let y = choose|y: int|
                    0 <= y < names@.take(x as int).len() && (#[trigger] names@.take(
                        x as int,
                    )[y])@ == m2;
                assert(names@.take(x as int + 1)[y]@ == m2);
            }
            assert(names@.take(x as int + 1)[x as int]@ == n);
            assert(names_has(names@.take(x as int + 1), n));
        }
        let merged_counter: Option<BoundedPNCounterv2> = match (mi, oi) {
            (Some(i), Some(j)) => Some(mine[i].1.merge(&theirs[j].1)),
            (Some(i), None) => Some(mine[i].1.clone()),
            (None, Some(j)) => Some(theirs[j].1.clone()),
            (None, None) => None,
        };
        match merged_counter {
            Some(c) => {
                proof {
                    lemma_ipairs_push(out@, (names@[x as int], c));
                    lemma_assoc_map_push(item_pairs(out@), (n, c@));
                    lemma_unique_push(item_pairs(out@), (n, c@));
                }
                let nm = names[x].clone();
                out.push((nm, c));
            },
            None => {
            },
        }
        x += 1;
    }
    proof {
        assert(names@.take(names@.len() as int) =~= names@);
        lemma_assoc_map_dom(item_pairs(out@));
    }
    out
}

impl Clone for ShoppingList {
    fn clone(&self) -> (r: Self)
        ensures
            r@ == self@,
            r.well_formed() == self.well_formed(),
    {
        let r = ShoppingList {
            node_id: self.node_id,
            items: items_copy(&self.items),
            awset: self.awset.clone(),
        };
        r
    }
}

impl ShoppingList {
    /// Representation and model invariant.
    pub open spec fn well_formed(&self) -> bool {
        &&& unique_keys(item_pairs(self.items@))
        &&& items_inv(self.items@)
        &&& self.awset.well_formed()
        &&& list_wf(self@)
    }

    /// Creates an empty list owned by a freshly drawn replica
    /// identifier.
    pub fn new() -> (r: Self)
        ensures
            r.well_formed(),
            r@.items == Map::<Seq<char>, CounterModel>::empty(),
            r@.awset.state == Map::<(Seq<char>, u128), u32>::empty(),
            r@.awset.context == Map::<u128, u32>::empty(),
    {
        let id = fresh_node_id();
        Self::new_v2(id)
    }

    /// Creates an empty list owned by the given replica identifier.
    pub fn new_v2(id: u128) -> (r: Self)
        ensures
            r.well_formed(),
            r@.node_id == id,
            r@.items == Map::<Seq<char>, CounterModel>::empty(),
            r@.awset.state == Map::<(Seq<char>, u128), u32>::empty(),
            r@.awset.context == Map::<u128, u32>::empty(),
    {
        let r = ShoppingList { node_id: id, items: Vec::new(), awset: AWSet::new() };
        proof {
            lemma_assoc_map_dom(item_pairs(r.items@));
            assert(item_pairs(r.items@) =~= Seq::<(Seq<char>, CounterModel)>::empty());
            assert forall|n: Seq<char>| !(#[trigger] live_names(r@.awset.state).contains(n)) by {
                if live_names(r@.awset.state).contains(n) {
                    let rr = choose|rr: u128| #[trigger] r@.awset.state.dom().contains((n, rr));
                }
            }
        }
        r
    }

    /// The names the list currently holds, as the membership set sees
    /// them.
    pub fn get_items(&self) -> (r: Vec<String>)
        requires
            self.well_formed(),
        ensures
            forall|i: int, j: int| 0 <= i < j < r@.len() ==> (#[trigger] r@[i])@ != (
            #[trigger] r@[j])@,
            forall|i: int| 0 <= i < r@.len() ==> live_names(self@.awset.state).contains(
                (#[trigger] r@[i])@,
            ),
            forall|n: Seq<char>| #[trigger] live_names(self@.awset.state).contains(n)
                ==> crate::awset::names_has(r@, n),
    {
        self.awset.elements()
    }

    /// Applies a quantity change to an item, creating it if needed,
    /// and always registers an add-wins membership event, including
    /// for a zero change (a pure membership heartbeat that leaves the
    /// counter as it is).  Returns whether the quantity change itself
    /// was applied; an increment whose addition would overflow is
    /// dropped (the membership event still happens), and a decrement
    /// is clamped as the counter prescribes.
    pub fn add_or_update_item(&mut self, item_name: String, quantity_change: u32, decrement: bool)
        -> (applied: bool)
        requires
            old(self).well_formed(),
            get_or_zero(old(self)@.awset.context, old(self)@.node_id) < u32::MAX,
        ensures
            final(self).well_formed(),
            final(self)@.node_id == old(self)@.node_id,
            ({
                let m = old(self)@;
                let n = item_name@;
                let c0 = if m.items.dom().contains(n) {
                    m.items[n]
                } else {
                    counter_empty()
                };
                let c1 = if quantity_change == 0 {
                    c0
                } else if decrement {
                    counter_decremented(c0, m.node_id, quantity_change)
                } else {
                    counter_incremented(c0, m.node_id, quantity_change)
                };
                &&& final(self)@.awset == set_added(m.awset, n, m.node_id)
                &&& final(self)@.items == m.items.insert(n, c1)
                &&& applied == (if quantity_change == 0 {
                    true
                } else if decrement {
                    get_or_zero(c0.shrunk, m.node_id) + quantity_change <= u32::MAX
                } else {
                    get_or_zero(c0.grown, m.node_id) + quantity_change <= u32::MAX
                })
            }),
    {
        let ghost m = old(self)@;
        let ghost n = item_name@;
        let found = items_find(&self.items, &item_name);
        match found {
            Some(i) => {
                if quantity_change == 0 {
                    self.awset.add_i(item_name, self.node_id);
                    proof {
                        assert(m.items.insert(n, m.items[n]) =~= m.items);
                        self.lemma_reestablish_after_add(m, n);
                    }
                    return true;
                }
                let mut c = self.items[i].1.clone();
                let applied = if decrement {
                    c.decrement(self.node_id, quantity_change)
                } else {
                    c.increment(self.node_id, quantity_change)
                };
                let nm = self.items[i].0.clone();
                let ghost s0 = self.items@;
                self.items.set(i, (nm, c));
                proof {
                    lemma_ipairs_update(s0, i as int, self.items@[i as int]);
                    lemma_assoc_map_update(
                        item_pairs(s0),
                        i as int,
                        (n, self.items@[i as int].1@),
                    );
                }
                self.awset.add_i(item_name, self.node_id);
                proof {
                    self.lemma_reestablish_after_add(m, n);
                }
                applied
            },
            None => {
                let mut c = BoundedPNCounterv2::new();
                let mut applied = true;
                if quantity_change == 0 {
                } else if decrement {
                    applied = c.decrement(self.node_id, quantity_change);
                } else {
                    applied = c.increment(self.node_id, quantity_change);
                }
                proof {
                    lemma_assoc_map_dom(item_pairs(self.items@));
                    assert(!has_key(item_pairs(self.items@), n));
                    lemma_ipairs_push(self.items@, (item_name, c));
                    lemma_assoc_map_push(item_pairs(self.items@), (n, c@));
                    lemma_unique_push(item_pairs(self.items@), (n, c@));
                }
                let nm = item_name.clone();
                self.items.push((nm, c));
                self.awset.add_i(item_name, self.node_id);
                proof {
                    self.lemma_reestablish_after_add(m, n);
                }
                applied
            },
        }
    }

    /// After an items update at name `n` and a membership add of `n`,
    /// the list invariant holds again.
    proof fn lemma_reestablish_after_add(self, m: ListModel, n: Seq<char>)
        requires
            list_wf(m),
            self@.node_id == m.node_id,
            self@.awset == set_added(m.awset, n, m.node_id),
            awset_wf(self@.awset),
            exists|c: CounterModel|
                counter_wf(c) && self@.items == m.items.insert(n, c),
        ensures
            list_wf(self@),
    {
        let c = choose|c: CounterModel|
            counter_wf(c) && self@.items == m.items.insert(n, c);
        lemma_live_names_insert(m.awset.state, n, m.node_id, (get_or_zero(
            m.awset.context,
            m.node_id,
        ) + 1) as u32);
        assert forall|x: Seq<char>| #[trigger] self@.items.dom().contains(x) <==> live_names(
            self@.awset.state,
        ).contains(x) by {
            assert(live_names(self@.awset.state) =~= live_names(m.awset.state).insert(n));
        }
    }

    /// Removes an item entirely: its membership entries and its
    /// counter are dropped; the causal context stays.
    pub fn remove_item(&mut self, item_name: String)
        requires
            old(self).well_formed(),
        ensures
            final(self).well_formed(),
            final(self)@.node_id == old(self)@.node_id,
            final(self)@.awset.context == old(self)@.awset.context,
            final(self)@.awset.state == drop_name(old(self)@.awset.state, item_name@),
            final(self)@.items == old(self)@.items.remove(item_name@),
    {
        let ghost m = old(self)@;
        let ghost n = item_name@;
        let kept = bucket_without(&self.items, &item_name);
        self.items = kept;
        self.awset.rmv_i(item_name);
        proof {
            assert(final(self)@.items =~= m.items.remove(n));
            lemma_live_names_drop(m.awset.state, n);
            assert forall|x: Seq<char>| #[trigger] final(self)@.items.dom().contains(x) <==>
                live_names(final(self)@.awset.state).contains(x) by {
                assert(live_names(final(self)@.awset.state) =~= live_names(
                    m.awset.state,
                ).remove(n));
            }
        }
    }

    /// Whether two lists carry the same replicated content: the same
    /// membership set and the same counters.  The locally owned
    /// replica identifier is not compared.
    pub fn same_state(&self, other: &ShoppingList) -> (r: bool)
        requires
            self.well_formed(),
            other.well_formed(),
        ensures
            r == (self@.items == other@.items && self@.awset == other@.awset),
    {
        let set_eq = self.awset.same_state(&other.awset);
        if !set_eq {
            return false;
        }
        items_equal(&self.items, &other.items)
    }

    /// Merges the incoming snapshot into this list: the membership
    /// sets merge first; then, for every name live in the merged set,
    /// the counter is the join of both sides' counters if both hold
    /// one, or the one counter that exists.  Counters for names no
    /// longer live are dropped.
    pub fn merge(&mut self, inc_list: &ShoppingList)
        requires
            old(self).well_formed(),
            inc_list.well_formed(),
        ensures
            final(self).well_formed(),
            final(self)@ == list_merged(old(self)@, inc_list@),
    {
        let ghost a = old(self)@;
        let ghost b = inc_list@;
        let ghost ms = merged_state(a.awset, b.awset);
        self.awset.merge(&inc_list.awset);
        let names = self.awset.elements();
        let new_items = reconcile_bucket(&names, &self.items, &inc_list.items);
        self.items = new_items;
        proof {
            lemma_list_merged_wf(a, b);
            assert forall|n: Seq<char>| #[trigger] live_names(ms).contains(n) implies
                a.items.dom().contains(n) || b.items.dom().contains(n) by {
                lemma_live_of_merge_subset(a.awset, b.awset);
            }
            assert forall|n: Seq<char>| #[trigger] names_has(names@, n) implies live_names(
                ms,
            ).contains(n) by {
                let y = choose|y: int| 0 <= y < names@.len() && (#[trigger] names@[y])@ == n;
            }
            assert(final(self)@.items =~= merged_items(a, b));
            assert(final(self)@ =~= list_merged(a, b));
        }
    }
}

/// Merging two well-formed lists yields a well-formed list.
pub proof fn lemma_list_merged_wf(a: ListModel, b: ListModel)
    requires
        list_wf(a),
        list_wf(b),
    ensures
        list_wf(list_merged(a, b)),
{
    let m = list_merged(a, b);
    lemma_awset_merged_wf(a.awset, b.awset);
    lemma_live_of_merge_subset(a.awset, b.awset);
    assert(m.items.dom().subset_of(a.items.dom() + b.items.dom()));
    vstd::set_lib::lemma_len_subset(m.items.dom(), a.items.dom() + b.items.dom());
    assert forall|n: Seq<char>| #[trigger] m.items.dom().contains(n) <==> live_names(
        m.awset.state,
    ).contains(n) by {
        if live_names(merged_state(a.awset, b.awset)).contains(n) {
            assert(live_names(a.awset.state).contains(n) || live_names(b.awset.state).contains(n));
        }
    }
    assert forall|n: Seq<char>| #[trigger] m.items.dom().contains(n) implies counter_wf(
        m.items[n],
    ) by {
        if a.items.dom().contains(n) && b.items.dom().contains(n) {
            lemma_counter_merged_wf(a.items[n], b.items[n]);
        }
    }
}

/// Merge law: merging is commutative on the replicated content (the
/// membership set and the counters); the locally owned replica
/// identifier is not part of the replicated state.
pub proof fn lemma_list_merge_commutes(a: ListModel, b: ListModel)
    requires
        list_wf(a),
        list_wf(b),
    ensures
        list_merged(a, b).awset == list_merged(b, a).awset,
        list_merged(a, b).items == list_merged(b, a).items,
{
    lemma_awset_merge_commutes(a.awset, b.awset);
    assert forall|n: Seq<char>| #[trigger] merged_items(a, b).dom().contains(n) implies
        merged_items(a, b)[n] == merged_items(b, a)[n] by {
        if a.items.dom().contains(n) && b.items.dom().contains(n) {
            lemma_counter_merge_commutes(a.items[n], b.items[n]);
        }
    }
    assert(merged_items(a, b) =~= merged_items(b, a));
}

/// Merge law: merging a list with itself changes nothing.
pub proof fn lemma_list_merge_idempotent(a: ListModel)
    requires
        list_wf(a),
    ensures
        list_merged(a, a) == a,
{
    lemma_awset_merge_idempotent(a.awset);
    assert forall|n: Seq<char>| #[trigger] merged_items(a, a).dom().contains(n) implies
        merged_items(a, a)[n] == a.items[n] by {
        lemma_counter_merge_idempotent(a.items[n]);
    }
    assert(merged_items(a, a) =~= a.items);
    assert(list_merged(a, a) =~= a);
}

/// The membership condition under which a three-way list merge is
/// associative: no name live in the final state has been dropped by
/// one of the two intermediate merges while a counter for it still
/// existed on the dropped side.
pub open spec fn membership_stable(a: AwSetModel, b: AwSetModel, c: AwSetModel) -> bool {
    forall|n: Seq<char>|
        #[trigger] live_names(merged_state(awset_merged(a, b), c)).contains(n) ==> {
            &&& (live_names(merged_state(a, b)).contains(n) || (!live_names(a.state).contains(n)
                && !live_names(b.state).contains(n)))
            &&& (live_names(merged_state(b, c)).contains(n) || (!live_names(b.state).contains(n)
                && !live_names(c.state).contains(n)))
        }
}

/// Merge law: merging is associative, provided no intermediate merge
/// drops a name that the final state keeps alive while a stale
/// counter for it remains on one side.  Without that proviso a stale
/// counter can re-enter through the grouping that merges its side
/// last, and the groupings disagree.
pub proof fn lemma_list_merge_assoc(a: ListModel, b: ListModel, c: ListModel)
    requires
        list_wf(a),
        list_wf(b),
        list_wf(c),
        membership_stable(a.awset, b.awset, c.awset),
    ensures
        list_merged(list_merged(a, b), c) == list_merged(a, list_merged(b, c)),
{
    let ab = list_merged(a, b);
    let bc = list_merged(b, c);
    lemma_awset_merge_assoc(a.awset, b.awset, c.awset);
    assert forall|n: Seq<char>| #[trigger] merged_items(ab, c).dom().contains(n) implies
        merged_items(a, bc).dom().contains(n) && merged_items(ab, c)[n] == merged_items(
            a,
            bc,
        )[n] by {
        lemma_list_items_assoc_at(a, b, c, n);
    }
    assert forall|n: Seq<char>| #[trigger] merged_items(a, bc).dom().contains(n) implies
        merged_items(ab, c).dom().contains(n) by {
        lemma_list_items_assoc_at(a, b, c, n);
    }
    assert(merged_items(ab, c) =~= merged_items(a, bc));
    assert(list_merged(list_merged(a, b), c) =~= list_merged(a, list_merged(b, c)));
}

/// The pointwise heart of list associativity: at any single name, the
/// two groupings agree on presence and on the merged counter.
proof fn lemma_list_items_assoc_at(a: ListModel, b: ListModel, c: ListModel, n: Seq<char>)
    requires
        list_wf(a),
        list_wf(b),
        list_wf(c),
        membership_stable(a.awset, b.awset, c.awset),
    ensures
        merged_items(list_merged(a, b), c).dom().contains(n) == merged_items(
            a,
            list_merged(b, c),
        ).dom().contains(n),
        merged_items(list_merged(a, b), c).dom().contains(n) ==> merged_items(
            list_merged(a, b),
            c,
        )[n] == merged_items(a, list_merged(b, c))[n],
{
    let ab = list_merged(a, b);
    let bc = list_merged(b, c);
    lemma_list_merged_wf(a, b);
    lemma_list_merged_wf(b, c);
    lemma_awset_merge_assoc(a.awset, b.awset, c.awset);
    lemma_live_of_merge_subset(a.awset, b.awset);
    lemma_live_of_merge_subset(b.awset, c.awset);
    lemma_live_of_merge_subset(awset_merged(a.awset, b.awset), c.awset);
    lemma_live_of_merge_subset(a.awset, awset_merged(b.awset, c.awset));
    let fin = live_names(merged_state(awset_merged(a.awset, b.awset), c.awset));
    if fin.contains(n) {
        if a.items.dom().contains(n) && b.items.dom().contains(n) && c.items.dom().contains(n) {
            lemma_counter_merge_assoc(a.items[n], b.items[n], c.items[n]);
        }
    }
}

} // verus!
