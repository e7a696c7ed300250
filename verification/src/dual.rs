//! The two-bucket list: each item's quantity is split into a "needed"
//! and a "purchased" counter with transfer operations between them,
//! sharing one add-wins set for membership.
//!
//! The two buckets are independently converging lattices.  A transfer
//! performed concurrently by two replicas therefore does not conserve
//! the total `needed + purchased` across a merge — each bucket
//! converges correctly on its own, but the sum can diverge under
//! concurrent transfer races.  This is a known limitation of the
//! design, kept as it is.

use crate::awset::{
    awset_merged, awset_wf, drop_name, lemma_awset_merge_assoc, lemma_awset_merge_commutes,
    lemma_awset_merge_idempotent, lemma_awset_merged_wf, lemma_live_names_drop,
    lemma_live_names_insert, lemma_live_of_merge_subset, live_names, merged_state, names_has,
    set_added, AWSet, AwSetModel,
};
use crate::counter::{
    counter_decremented, counter_empty, counter_incremented, counter_merged, counter_wf,
    lemma_counter_merge_assoc, lemma_counter_merge_commutes, lemma_counter_merge_idempotent,
    lemma_counter_merged_wf, BoundedPNCounterv2, CounterModel,
};
use crate::ids::fresh_node_id;
use crate::list::{
    bucket_apply, item_pairs, items_copy, items_find, items_inv, membership_stable,
    reconcile_bucket,
};
use crate::maps::{
    assoc_map, get_or_zero, has_key, lemma_assoc_map_dom, lemma_assoc_map_index,
    lemma_assoc_map_push, lemma_unique_push, unique_keys,
};
use vstd::prelude::*;

verus! {

/// Mathematical model of a two-bucket list.
#[verifier::ext_equal]
pub ghost struct DualListModel {
    pub node_id: u128,
    pub needed: Map<Seq<char>, CounterModel>,
    pub purchased: Map<Seq<char>, CounterModel>,
    pub awset: AwSetModel,
}

/// What every reachable two-bucket list satisfies: a well-formed set,
/// and counters only for live names, each well-formed.  Unlike the
/// single-bucket list, a live name may have no counter in a bucket.
pub open spec fn dual_wf(m: DualListModel) -> bool {
    &&& awset_wf(m.awset)
    &&& m.needed.dom().finite()
    &&& m.purchased.dom().finite()
    &&& forall|n: Seq<char>| #[trigger] m.needed.dom().contains(n) ==> live_names(
        m.awset.state,
    ).contains(n) && counter_wf(m.needed[n])
    &&& forall|n: Seq<char>| #[trigger] m.purchased.dom().contains(n) ==> live_names(
        m.awset.state,
    ).contains(n) && counter_wf(m.purchased[n])
}

/// One bucket after a merge: for every name live in the merged set,
/// the join of both sides' counters when both hold one, otherwise the
/// one counter that exists.
pub open spec fn merged_bucket(
    live: Set<Seq<char>>,
    x: Map<Seq<char>, CounterModel>,
    y: Map<Seq<char>, CounterModel>,
) -> Map<Seq<char>, CounterModel> {
    Map::new(
        |n: Seq<char>| live.contains(n) && (x.dom().contains(n) || y.dom().contains(n)),
        |n: Seq<char>| if x.dom().contains(n) && y.dom().contains(n) {
            counter_merged(x[n], y[n])
        } else if x.dom().contains(n) {
            x[n]
        } else {
            y[n]
        },
    )
}

/// The model of a merge: the local replica identity stays; the set
/// merges once and each bucket reconciles against it independently.
pub open spec fn dual_merged(a: DualListModel, b: DualListModel) -> DualListModel {
    let live = live_names(merged_state(a.awset, b.awset));
    DualListModel {
        node_id: a.node_id,
        needed: merged_bucket(live, a.needed, b.needed),
        purchased: merged_bucket(live, a.purchased, b.purchased),
        awset: awset_merged(a.awset, b.awset),
    }
}

/// A replicated list whose items carry a "needed" and a "purchased"
/// quantity.
pub struct ShoppingListCRDTV2 {
    /// The replica that owns this copy.
    pub node_id: u128,
    /// Quantities still needed, one counter per item name.
    pub needed_items: Vec<(String, BoundedPNCounterv2)>,
    /// Quantities already purchased, one counter per item name.
    pub purchased_items: Vec<(String, BoundedPNCounterv2)>,
    /// The shared membership set.
    pub awset: AWSet,
}

impl View for ShoppingListCRDTV2 {
    type V = DualListModel;

    open spec fn view(&self) -> DualListModel {
        DualListModel {
            node_id: self.node_id,
            needed: assoc_map(item_pairs(self.needed_items@)),
            purchased: assoc_map(item_pairs(self.purchased_items@)),
            awset: self.awset@,
        }
    }
}

impl Clone for ShoppingListCRDTV2 {
    fn clone(&self) -> (r: Self)
        ensures
            r@ == self@,
            r.well_formed() == self.well_formed(),
    {
        ShoppingListCRDTV2 {
            node_id: self.node_id,
            needed_items: items_copy(&self.needed_items),
            purchased_items: items_copy(&self.purchased_items),
            awset: self.awset.clone(),
        }
    }
}

impl ShoppingListCRDTV2 {
    /// Representation and model invariant.
    pub open spec fn well_formed(&self) -> bool {
        &&& unique_keys(item_pairs(self.needed_items@))
        &&& items_inv(self.needed_items@)
        &&& unique_keys(item_pairs(self.purchased_items@))
        &&& items_inv(self.purchased_items@)
        &&& self.awset.well_formed()
        &&& dual_wf(self@)
    }

    /// Creates an empty list owned by a freshly drawn replica
    /// identifier.
    pub fn new() -> (r: Self)
        ensures
            r.well_formed(),
            r@.needed == Map::<Seq<char>, CounterModel>::empty(),
            r@.purchased == Map::<Seq<char>, CounterModel>::empty(),
            r@.awset.state == Map::<(Seq<char>, u128), u32>::empty(),
            r@.awset.context == Map::<u128, u32>::empty(),
    {
        let id = fresh_node_id();
        Self::new_v2(id)
    }

    /// Creates an empty list owned by the given replica identifier.
    pub fn new_v2(id: u128) -> (r: Self)
        ensures
            r.well_formed(),
            r@.node_id == id,
            r@.needed == Map::<Seq<char>, CounterModel>::empty(),
            r@.purchased == Map::<Seq<char>, CounterModel>::empty(),
            r@.awset.state == Map::<(Seq<char>, u128), u32>::empty(),
            r@.awset.context == Map::<u128, u32>::empty(),
    {
        let r = ShoppingListCRDTV2 {
            node_id: id,
            needed_items: Vec::new(),
            purchased_items: Vec::new(),
            awset: AWSet::new(),
        };
        proof {
            lemma_assoc_map_dom(item_pairs(r.needed_items@));
            lemma_assoc_map_dom(item_pairs(r.purchased_items@));
            assert(item_pairs(r.needed_items@) =~= Seq::<(Seq<char>, CounterModel)>::empty());
            assert(item_pairs(r.purchased_items@) =~= Seq::<(Seq<char>, CounterModel)>::empty());
        }
        r
    }

    /// The names the list currently holds, as the membership set sees
    /// them.
    pub fn get_items(&self) -> (r: Vec<String>)
        requires
            self.well_formed(),
        ensures
            forall|i: int, j: int| 0 <= i < j < r@.len() ==> (#[trigger] r@[i])@ != (
            #[trigger] r@[j])@,
            forall|i: int| 0 <= i < r@.len() ==> live_names(self@.awset.state).contains(
                (#[trigger] r@[i])@,
            ),
            forall|n: Seq<char>| #[trigger] live_names(self@.awset.state).contains(n) ==> names_has(
                r@,
                n,
            ),
    {
        self.awset.elements()
    }

    /// After a membership add of `n` and at most one update per
    /// bucket at `n`, the invariant holds again.
    proof fn lemma_reestablish_after_add(self, m: DualListModel, n: Seq<char>)
        requires
            dual_wf(m),
            self@.node_id == m.node_id,
            self@.awset == set_added(m.awset, n, m.node_id),
            awset_wf(self@.awset),
            self@.needed == m.needed || exists|c: CounterModel|
                counter_wf(c) && self@.needed == m.needed.insert(n, c),
            self@.purchased == m.purchased || exists|c: CounterModel|
                counter_wf(c) && self@.purchased == m.purchased.insert(n, c),
        ensures
            dual_wf(self@),
    {
        lemma_live_names_insert(m.awset.state, n, m.node_id, (get_or_zero(
            m.awset.context,
            m.node_id,
        ) + 1) as u32);
        assert(live_names(self@.awset.state) =~= live_names(m.awset.state).insert(n));
        if self@.needed != m.needed {
            let c = choose|c: CounterModel|
                counter_wf(c) && self@.needed == m.needed.insert(n, c);
            assert(self@.needed == m.needed.insert(n, c));
        }
        if self@.purchased != m.purchased {
            let c = choose|c: CounterModel|
                counter_wf(c) && self@.purchased == m.purchased.insert(n, c);
            assert(self@.purchased == m.purchased.insert(n, c));
        }
    }

    /// Applies a quantity change to an item's "needed" counter,
    /// creating the item if needed, and always registers an add-wins
    /// membership event, including for a zero change (a pure
    /// membership heartbeat that leaves the counter as it is).
    /// Returns whether the quantity change itself was applied.
    pub fn add_or_update_needed_item(
        &mut self,
        item_name: String,
        quantity_change: u32,
        decrement: bool,
    ) -> (applied: bool)
        requires
            old(self).well_formed(),
            get_or_zero(old(self)@.awset.context, old(self)@.node_id) < u32::MAX,
        ensures
            final(self).well_formed(),
            final(self)@.node_id == old(self)@.node_id,
            final(self)@.purchased == old(self)@.purchased,
            ({
                let m = old(self)@;
                let n = item_name@;
                let c0 = if m.needed.dom().contains(n) {
                    m.needed[n]
                } else {
                    counter_empty()
                };
                let c1 = if quantity_change == 0 {
                    c0
                } else if decrement {
                    counter_decremented(c0, m.node_id, quantity_change)
                } else {
                    counter_incremented(c0, m.node_id, quantity_change)
                };
                &&& final(self)@.awset == set_added(m.awset, n, m.node_id)
                &&& final(self)@.needed == m.needed.insert(n, c1)
                &&& applied == (if quantity_change == 0 {
                    true
                } else if decrement {
                    get_or_zero(c0.shrunk, m.node_id) + quantity_change <= u32::MAX
                } else {
                    get_or_zero(c0.grown, m.node_id) + quantity_change <= u32::MAX
                })
            }),
    {
        let ghost m = old(self)@;
        let ghost n = item_name@;
        let found = items_find(&self.needed_items, &item_name);
        match found {
            Some(_) => {
                if quantity_change == 0 {
                    self.awset.add_i(item_name, self.node_id);
                    proof {
                        assert(m.needed.insert(n, m.needed[n]) =~= m.needed);
                        self.lemma_reestablish_after_add(m, n);
                    }
                    return true;
                }
                let applied = bucket_apply(
                    &mut self.needed_items,
                    &item_name,
                    self.node_id,
                    quantity_change,
                    decrement,
                );
                self.awset.add_i(item_name, self.node_id);
                proof {
                    self.lemma_reestablish_after_add(m, n);
                }
                applied
            },
            None => {
                if quantity_change == 0 {
                    let c = BoundedPNCounterv2::new();
                    let nm = item_name.clone();
                    proof {
                        lemma_assoc_map_dom(item_pairs(self.needed_items@));
                        assert(!has_key(item_pairs(self.needed_items@), n));
                        crate::list::lemma_ipairs_push(self.needed_items@, (nm, c));
                        lemma_assoc_map_push(item_pairs(self.needed_items@), (n, c@));
                        lemma_unique_push(item_pairs(self.needed_items@), (n, c@));
                    }
                    self.needed_items.push((nm, c));
                    self.awset.add_i(item_name, self.node_id);
                    proof {
                        self.lemma_reestablish_after_add(m, n);
                    }
                    true
                } else {
                    let applied = bucket_apply(
                        &mut self.needed_items,
                        &item_name,
                        self.node_id,
                        quantity_change,
                        decrement,
                    );
                    self.awset.add_i(item_name, self.node_id);
                    proof {
                        self.lemma_reestablish_after_add(m, n);
                    }
                    applied
                }
            },
        }
    }

    /// Moves `quantity` of an item from "needed" to "purchased",
    /// attributed to the owning replica, and registers a membership
    /// event.  A name absent from the needed bucket is a no-op and
    /// returns `false`.
    pub fn mark_as_purchased(&mut self, item_name: String, quantity: u32) -> (applied: bool)
        requires
            old(self).well_formed(),
            get_or_zero(old(self)@.awset.context, old(self)@.node_id) < u32::MAX,
        ensures
            final(self).well_formed(),
            final(self)@.node_id == old(self)@.node_id,
            ({
                let m = old(self)@;
                let n = item_name@;
                if m.needed.dom().contains(n) {
                    let p0 = if m.purchased.dom().contains(n) {
                        m.purchased[n]
                    } else {
                        counter_empty()
                    };
                    &&& applied == (get_or_zero(m.needed[n].shrunk, m.node_id) + quantity
                        <= u32::MAX && get_or_zero(p0.grown, m.node_id) + quantity <= u32::MAX)
                    &&& final(self)@.awset == set_added(m.awset, n, m.node_id)
                    &&& final(self)@.needed == m.needed.insert(
                        n,
                        counter_decremented(m.needed[n], m.node_id, quantity),
                    )
                    &&& final(self)@.purchased == m.purchased.insert(
                        n,
                        counter_incremented(p0, m.node_id, quantity),
                    )
                } else {
                    final(self)@ == m && !applied
                }
            }),
    {
        let ghost m = old(self)@;
        let ghost n = item_name@;
        let found = items_find(&self.needed_items, &item_name);
        match found {
            Some(_) => {
                let shrink_applied = bucket_apply(
                    &mut self.needed_items,
                    &item_name,
                    self.node_id,
                    quantity,
                    true,
                );
                let grow_applied = bucket_apply(
                    &mut self.purchased_items,
                    &item_name,
                    self.node_id,
                    quantity,
                    false,
                );
                self.awset.add_i(item_name, self.node_id);
                proof {
                    self.lemma_reestablish_after_add(m, n);
                }
                shrink_applied && grow_applied
            },
            None => {
                proof {
                    assert(final(self)@ =~= m);
                }
                false
            },
        }
    }

    /// Moves `quantity` of an item from "purchased" back to "needed",
    /// attributed to the owning replica, and registers a membership
    /// event.  A name absent from the purchased bucket is a no-op and
    /// returns `false`.
    pub fn mark_as_needed_again(&mut self, item_name: String, quantity: u32) -> (applied: bool)
        requires
            old(self).well_formed(),
            get_or_zero(old(self)@.awset.context, old(self)@.node_id) < u32::MAX,
        ensures
            final(self).well_formed(),
            final(self)@.node_id == old(self)@.node_id,
            ({
                let m = old(self)@;
                let n = item_name@;
                if m.purchased.dom().contains(n) {
                    let d0 = if m.needed.dom().contains(n) {
                        m.needed[n]
                    } else {
                        counter_empty()
                    };
                    &&& applied == (get_or_zero(m.purchased[n].shrunk, m.node_id) + quantity
                        <= u32::MAX && get_or_zero(d0.grown, m.node_id) + quantity <= u32::MAX)
                    &&& final(self)@.awset == set_added(m.awset, n, m.node_id)
                    &&& final(self)@.purchased == m.purchased.insert(
                        n,
                        counter_decremented(m.purchased[n], m.node_id, quantity),
                    )
                    &&& final(self)@.needed == m.needed.insert(
                        n,
                        counter_incremented(d0, m.node_id, quantity),
                    )
                } else {
                    final(self)@ == m && !applied
                }
            }),
    {
        let ghost m = old(self)@;
        let ghost n = item_name@;
        let found = items_find(&self.purchased_items, &item_name);
        match found {
            Some(_) => {
                let shrink_applied = bucket_apply(
                    &mut self.purchased_items,
                    &item_name,
                    self.node_id,
                    quantity,
                    true,
                );
                let grow_applied = bucket_apply(
                    &mut self.needed_items,
                    &item_name,
                    self.node_id,
                    quantity,
                    false,
                );
                self.awset.add_i(item_name, self.node_id);
                proof {
                    self.lemma_reestablish_after_add(m, n);
                }
                shrink_applied && grow_applied
            },
            None => {
                proof {
                    assert(final(self)@ =~= m);
                }
                false
            },
        }
    }

    /// Removes an item entirely: both bucket entries and its
    /// membership entries are dropped; the causal context stays.
    pub fn remove_item(&mut self, item_name: String)
        requires
            old(self).well_formed(),
        ensures
            final(self).well_formed(),
            final(self)@.node_id == old(self)@.node_id,
            final(self)@.awset.context == old(self)@.awset.context,
            final(self)@.awset.state == drop_name(old(self)@.awset.state, item_name@),
            final(self)@.needed == old(self)@.needed.remove(item_name@),
            final(self)@.purchased == old(self)@.purchased.remove(item_name@),
    {
        let ghost m = old(self)@;
        let ghost n = item_name@;
        let kept_needed = crate::list::bucket_without(&self.needed_items, &item_name);
        let kept_purchased = crate::list::bucket_without(&self.purchased_items, &item_name);
        self.needed_items = kept_needed;
        self.purchased_items = kept_purchased;
        self.awset.rmv_i(item_name);
        proof {
            assert(final(self)@.needed =~= m.needed.remove(n));
            assert(final(self)@.purchased =~= m.purchased.remove(n));
            lemma_live_names_drop(m.awset.state, n);
            assert(live_names(final(self)@.awset.state) =~= live_names(m.awset.state).remove(n));
        }
    }

    /// Whether two lists carry the same replicated content: the same
    /// membership set and the same counters in both buckets.  The
    /// locally owned replica identifier is not compared.
    pub fn same_state(&self, other: &ShoppingListCRDTV2) -> (r: bool)
        requires
            self.well_formed(),
            other.well_formed(),
        ensures
            r == (self@.needed == other@.needed && self@.purchased == other@.purchased
                && self@.awset == other@.awset),
    {
        let set_eq = self.awset.same_state(&other.awset);
        if !set_eq {
            return false;
        }
        let needed_eq = crate::list::items_equal(&self.needed_items, &other.needed_items);
        if !needed_eq {
            return false;
        }
        crate::list::items_equal(&self.purchased_items, &other.purchased_items)
    }

    /// Merges the incoming snapshot into this list: the shared
    /// membership set merges once; then each bucket is reconciled
    /// independently against the merged set's names.
    pub fn merge(&mut self, inc_list: &ShoppingListCRDTV2)
        requires
            old(self).well_formed(),
            inc_list.well_formed(),
        ensures
            final(self).well_formed(),
            final(self)@ == dual_merged(old(self)@, inc_list@),
    {
        let ghost a = old(self)@;
        let ghost b = inc_list@;
        let ghost ms = merged_state(a.awset, b.awset);
        self.awset.merge(&inc_list.awset);
        let names = self.awset.elements();
        let new_needed = reconcile_bucket(&names, &self.needed_items, &inc_list.needed_items);
        let new_purchased = reconcile_bucket(
            &names,
            &self.purchased_items,
            &inc_list.purchased_items,
        );
        self.needed_items = new_needed;
        self.purchased_items = new_purchased;
        proof {
            lemma_dual_merged_wf(a, b);
            assert forall|n: Seq<char>| #[trigger] names_has(names@, n) implies live_names(
                ms,
            ).contains(n) by {
                let y = choose|y: int| 0 <= y < names@.len() && (#[trigger] names@[y])@ == n;
            }
            assert(final(self)@.needed =~= merged_bucket(live_names(ms), a.needed, b.needed));
            assert(final(self)@.purchased =~= merged_bucket(
                live_names(ms),
                a.purchased,
                b.purchased,
            ));
            assert(final(self)@ =~= dual_merged(a, b));
        }
    }
}

/// Merging two well-formed two-bucket lists yields a well-formed one.
pub proof fn lemma_dual_merged_wf(a: DualListModel, b: DualListModel)
    requires
        dual_wf(a),
        dual_wf(b),
    ensures
        dual_wf(dual_merged(a, b)),
{
    let m = dual_merged(a, b);
    lemma_awset_merged_wf(a.awset, b.awset);
    assert(m.needed.dom().subset_of(a.needed.dom() + b.needed.dom()));
    vstd::set_lib::lemma_len_subset(m.needed.dom(), a.needed.dom() + b.needed.dom());
    assert(m.purchased.dom().subset_of(a.purchased.dom() + b.purchased.dom()));
    vstd::set_lib::lemma_len_subset(m.purchased.dom(), a.purchased.dom() + b.purchased.dom());
    assert forall|n: Seq<char>| #[trigger] m.needed.dom().contains(n) implies live_names(
        m.awset.state,
    ).contains(n) && counter_wf(m.needed[n]) by {
        if a.needed.dom().contains(n) && b.needed.dom().contains(n) {
            lemma_counter_merged_wf(a.needed[n], b.needed[n]);
        }
    }
    assert forall|n: Seq<char>| #[trigger] m.purchased.dom().contains(n) implies live_names(
        m.awset.state,
    ).contains(n) && counter_wf(m.purchased[n]) by {
        if a.purchased.dom().contains(n) && b.purchased.dom().contains(n) {
            lemma_counter_merged_wf(a.purchased[n], b.purchased[n]);
        }
    }
}

/// Merge law: merging is commutative on the replicated content (the
/// membership set and both buckets); the locally owned replica
/// identifier is not part of the replicated state.
pub proof fn lemma_dual_merge_commutes(a: DualListModel, b: DualListModel)
    requires
        dual_wf(a),
        dual_wf(b),
    ensures
        dual_merged(a, b).awset == dual_merged(b, a).awset,
        dual_merged(a, b).needed == dual_merged(b, a).needed,
        dual_merged(a, b).purchased == dual_merged(b, a).purchased,
{
    lemma_awset_merge_commutes(a.awset, b.awset);
    let live = live_names(merged_state(a.awset, b.awset));
    assert forall|n: Seq<char>| #[trigger] merged_bucket(live, a.needed, b.needed).dom().contains(
        n,
    ) implies merged_bucket(live, a.needed, b.needed)[n] == merged_bucket(
        live,
        b.needed,
        a.needed,
    )[n] by {
        if a.needed.dom().contains(n) && b.needed.dom().contains(n) {
            lemma_counter_merge_commutes(a.needed[n], b.needed[n]);
        }
    }
    assert(merged_bucket(live, a.needed, b.needed) =~= merged_bucket(live, b.needed, a.needed));
    assert forall|n: Seq<char>| #[trigger] merged_bucket(
        live,
        a.purchased,
        b.purchased,
    ).dom().contains(n) implies merged_bucket(live, a.purchased, b.purchased)[n] == merged_bucket(
        live,
        b.purchased,
        a.purchased,
    )[n] by {
        if a.purchased.dom().contains(n) && b.purchased.dom().contains(n) {
            lemma_counter_merge_commutes(a.purchased[n], b.purchased[n]);
        }
    }
    assert(merged_bucket(live, a.purchased, b.purchased) =~= merged_bucket(
        live,
        b.purchased,
        a.purchased,
    ));
}

/// Merge law: merging a two-bucket list with itself changes nothing.
pub proof fn lemma_dual_merge_idempotent(a: DualListModel)
    requires
        dual_wf(a),
    ensures
        dual_merged(a, a) == a,
{
    lemma_awset_merge_idempotent(a.awset);
    let live = live_names(merged_state(a.awset, a.awset));
    assert forall|n: Seq<char>| #[trigger] merged_bucket(live, a.needed, a.needed).dom().contains(
        n,
    ) implies merged_bucket(live, a.needed, a.needed)[n] == a.needed[n] by {
        lemma_counter_merge_idempotent(a.needed[n]);
    }
    assert(merged_bucket(live, a.needed, a.needed) =~= a.needed);
    assert forall|n: Seq<char>| #[trigger] merged_bucket(
        live,
        a.purchased,
        a.purchased,
    ).dom().contains(n) implies merged_bucket(live, a.purchased, a.purchased)[n] == a.purchased[
        n] by {
        lemma_counter_merge_idempotent(a.purchased[n]);
    }
    assert(merged_bucket(live, a.purchased, a.purchased) =~= a.purchased);
    assert(dual_merged(a, a) =~= a);
}

/// Merge law: merging is associative, under the same membership
/// proviso as the single-bucket list, applied to the shared set.
pub proof fn lemma_dual_merge_assoc(a: DualListModel, b: DualListModel, c: DualListModel)
    requires
        dual_wf(a),
        dual_wf(b),
        dual_wf(c),
        membership_stable(a.awset, b.awset, c.awset),
    ensures
        dual_merged(dual_merged(a, b), c) == dual_merged(a, dual_merged(b, c)),
{
    let ab = dual_merged(a, b);
    let bc = dual_merged(b, c);
    lemma_awset_merge_assoc(a.awset, b.awset, c.awset);
    lemma_dual_merged_wf(a, b);
    lemma_dual_merged_wf(b, c);
    let live_l = live_names(merged_state(ab.awset, c.awset));
    let live_r = live_names(merged_state(a.awset, bc.awset));
    assert(live_l == live_r);
    assert forall|n: Seq<char>| #[trigger] merged_bucket(live_l, ab.needed, c.needed).dom().contains(
        n,
    ) implies merged_bucket(live_r, a.needed, bc.needed).dom().contains(n) && merged_bucket(
        live_l,
        ab.needed,
        c.needed,
    )[n] == merged_bucket(live_r, a.needed, bc.needed)[n] by {
        lemma_dual_bucket_assoc_at(a, b, c, n, true);
    }
    assert forall|n: Seq<char>| #[trigger] merged_bucket(live_r, a.needed, bc.needed).dom().contains(
        n,
    ) implies merged_bucket(live_l, ab.needed, c.needed).dom().contains(n) by {
        lemma_dual_bucket_assoc_at(a, b, c, n, true);
    }
    assert(merged_bucket(live_l, ab.needed, c.needed) =~= merged_bucket(
        live_r,
        a.needed,
        bc.needed,
    ));
    assert forall|n: Seq<char>| #[trigger] merged_bucket(
        live_l,
        ab.purchased,
        c.purchased,
    ).dom().contains(n) implies merged_bucket(live_r, a.purchased, bc.purchased).dom().contains(n)
        && merged_bucket(live_l, ab.purchased, c.purchased)[n] == merged_bucket(
        live_r,
        a.purchased,
        bc.purchased,
    )[n] by {
        lemma_dual_bucket_assoc_at(a, b, c, n, false);
    }
    assert forall|n: Seq<char>| #[trigger] merged_bucket(
        live_r,
        a.purchased,
        bc.purchased,
    ).dom().contains(n) implies merged_bucket(live_l, ab.purchased, c.purchased).dom().contains(
        n,
    ) by {
        lemma_dual_bucket_assoc_at(a, b, c, n, false);
    }
    assert(merged_bucket(live_l, ab.purchased, c.purchased) =~= merged_bucket(
        live_r,
        a.purchased,
        bc.purchased,
    ));
    assert(dual_merged(dual_merged(a, b), c) =~= dual_merged(a, dual_merged(b, c)));
}

/// The pointwise heart of two-bucket associativity, for one bucket
/// (`needed` when `needed_side` is set, `purchased` otherwise).
proof fn lemma_dual_bucket_assoc_at(
    a: DualListModel,
    b: DualListModel,
    c: DualListModel,
    n: Seq<char>,
    needed_side: bool,
)
    requires
        dual_wf(a),
        dual_wf(b),
        dual_wf(c),
        membership_stable(a.awset, b.awset, c.awset),
    ensures
        ({
            let ab = dual_merged(a, b);
            let bc = dual_merged(b, c);
            let live_l = live_names(merged_state(ab.awset, c.awset));
            let live_r = live_names(merged_state(a.awset, bc.awset));
            let xa = if needed_side {
                a.needed
            } else {
                a.purchased
            };
            let xb = if needed_side {
                b.needed
            } else {
                b.purchased
            };
            let xc = if needed_side {
                c.needed
            } else {
                c.purchased
            };
            let xab = if needed_side {
                ab.needed
            } else {
                ab.purchased
            };
            let xbc = if needed_side {
                bc.needed
            } else {
                bc.purchased
            };
            &&& merged_bucket(live_l, xab, xc).dom().contains(n) == merged_bucket(
                live_r,
                xa,
                xbc,
            ).dom().contains(n)
            &&& merged_bucket(live_l, xab, xc).dom().contains(n) ==> merged_bucket(
                live_l,
                xab,
                xc,
            )[n] == merged_bucket(live_r, xa, xbc)[n]
        }),
{
    let ab = dual_merged(a, b);
    let bc = dual_merged(b, c);
    lemma_dual_merged_wf(a, b);
    lemma_dual_merged_wf(b, c);
    lemma_awset_merge_assoc(a.awset, b.awset, c.awset);
    lemma_live_of_merge_subset(a.awset, b.awset);
    lemma_live_of_merge_subset(b.awset, c.awset);
    lemma_live_of_merge_subset(awset_merged(a.awset, b.awset), c.awset);
    lemma_live_of_merge_subset(a.awset, awset_merged(b.awset, c.awset));
    let fin = live_names(merged_state(awset_merged(a.awset, b.awset), c.awset));
    if fin.contains(n) {
        if needed_side {
            if a.needed.dom().contains(n) && b.needed.dom().contains(n) && c.needed.dom().contains(
                n,
            ) {
                lemma_counter_merge_assoc(a.needed[n], b.needed[n], c.needed[n]);
            }
        } else {
            if a.purchased.dom().contains(n) && b.purchased.dom().contains(n)
                && c.purchased.dom().contains(n) {
                lemma_counter_merge_assoc(a.purchased[n], b.purchased[n], c.purchased[n]);
            }
        }
    }
}

} // verus!
