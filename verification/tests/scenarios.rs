//! Concrete scenarios: the add-wins tie-break, the literal counter
//! and set walk-throughs, cross-replica summation, the overflow and
//! no-op status results, and the two-bucket transfers.

use shopping_crdt::awset::AWSet;
use shopping_crdt::counter::BoundedPNCounterv2;
use shopping_crdt::dual::ShoppingListCRDTV2;
use shopping_crdt::list::ShoppingList;
use uuid::Uuid;

fn node() -> u128 {
    Uuid::new_v4().as_u128()
}

fn bucket(v: &[(u128, u32)], k: u128) -> Option<u32> {
    v.iter().find(|e| e.0 == k).map(|e| e.1)
}

fn list_counter<'a>(l: &'a ShoppingList, name: &str) -> &'a BoundedPNCounterv2 {
    &l.items.iter().find(|e| e.0 == name).unwrap().1
}

fn dual_counter<'a>(
    v: &'a [(String, BoundedPNCounterv2)],
    name: &str,
) -> Option<&'a BoundedPNCounterv2> {
    v.iter().find(|e| e.0 == name).map(|e| &e.1)
}

#[test]
fn add_wins_over_concurrent_removal() {
    // Replica n1 adds "apple" and then removes it; replica n2,
    // without having observed n1's generation, concurrently re-adds
    // it.  After merging, "apple" is present: the add wins.
    let n1 = node();
    let n2 = node();
    let mut s1 = AWSet::new();
    s1.add_i("apple".to_string(), n1);
    s1.rmv_i("apple".to_string());
    let mut s2 = AWSet::new();
    s2.add_i("apple".to_string(), n2);
    s1.merge(&s2);
    assert!(s1.contains("apple"));
}

#[test]
fn observed_removal_wins() {
    // Replica n2 received n1's entry, then n1 moved on (a later add
    // advanced its generation) and removed the item; the stale entry
    // at n2 is dominated by n1's context and dies in the merge.
    let n1 = node();
    let mut s1 = AWSet::new();
    s1.add_i("apple".to_string(), n1);
    let mut s2 = AWSet::new();
    s2.merge(&s1);
    assert!(s2.contains("apple"));
    s1.add_i("banana".to_string(), n1);
    s1.rmv_i("apple".to_string());
    s2.merge(&s1);
    assert!(!s2.contains("apple"));
    assert!(s2.contains("banana"));
}

#[test]
fn counter_literal_walkthrough() {
    let n1 = node();
    let mut c = BoundedPNCounterv2::new();
    c.increment(n1, 5);
    assert_eq!(c.get_count(), 5);
    c.decrement(n1, 3);
    assert_eq!(c.get_count(), 2);
    c.decrement(n1, 10); // clamped
    assert_eq!(c.get_count(), 0);
}

#[test]
fn awset_literal_walkthrough() {
    let n1 = node();
    let mut s = AWSet::new();
    s.add_i("apple".to_string(), n1);
    assert_eq!(s.context, vec![(n1, 1)]);
    assert_eq!(s.state, vec![("apple".to_string(), n1, 1)]);
    s.add_i("apple".to_string(), n1);
    // Still exactly one entry for "apple", now at generation 2.
    assert_eq!(s.context, vec![(n1, 2)]);
    assert_eq!(s.state, vec![("apple".to_string(), n1, 2)]);
}

#[test]
fn distinct_replica_contributions_sum() {
    // Two lists each add 2 to "milk" from distinct owning replicas;
    // after a merge the contributions sum.
    let n1 = node();
    let n2 = node();
    let mut l1 = ShoppingList::new_v2(n1);
    let mut l2 = ShoppingList::new_v2(n2);
    l1.add_or_update_item("milk".to_string(), 2, false);
    l2.add_or_update_item("milk".to_string(), 2, false);
    l1.merge(&l2);
    assert_eq!(list_counter(&l1, "milk").get_count(), 4);
}

#[test]
fn increment_overflow_is_dropped() {
    let n1 = node();
    let mut c = BoundedPNCounterv2::new();
    assert!(c.increment(n1, u32::MAX));
    assert!(!c.increment(n1, 1)); // the addition would overflow: no-op
    assert_eq!(bucket(&c.positive_count, n1).unwrap(), u32::MAX);
}

#[test]
fn decrement_overflow_is_dropped() {
    let n1 = node();
    let mut c = BoundedPNCounterv2::new();
    c.increment(n1, u32::MAX);
    assert!(c.decrement(n1, u32::MAX));
    assert!(!c.decrement(n1, 1)); // shrink magnitude would overflow: no-op
    assert_eq!(bucket(&c.negative_count, n1).unwrap(), u32::MAX);
    assert_eq!(c.get_count(), 0);
}

#[test]
fn zero_change_on_existing_item_refreshes_membership() {
    // A zero change is a pure membership heartbeat even for an
    // existing item: the counter stays, the replica's generation for
    // the name advances.
    let n1 = node();
    let mut l = ShoppingList::new_v2(n1);
    assert!(l.add_or_update_item("milk".to_string(), 2, false));
    assert!(l.add_or_update_item("milk".to_string(), 0, false));
    assert_eq!(list_counter(&l, "milk").get_count(), 2);
    assert_eq!(l.awset.max_i(n1), 2);
    assert_eq!(l.awset.state, vec![("milk".to_string(), n1, 2)]);
}

#[test]
fn zero_change_on_new_item_is_a_membership_heartbeat() {
    let n1 = node();
    let mut l = ShoppingList::new_v2(n1);
    assert!(l.add_or_update_item("milk".to_string(), 0, false));
    assert!(l.awset.contains("milk"));
    assert_eq!(list_counter(&l, "milk").get_count(), 0);
}

#[test]
fn remove_item_drops_name_and_counter() {
    let n1 = node();
    let mut l = ShoppingList::new_v2(n1);
    l.add_or_update_item("milk".to_string(), 2, false);
    l.add_or_update_item("tea".to_string(), 1, false);
    l.remove_item("milk".to_string());
    assert!(!l.awset.contains("milk"));
    assert!(l.awset.contains("tea"));
    assert!(l.items.iter().all(|e| e.0 != "milk"));
}

#[test]
fn stale_counter_does_not_survive_merge() {
    // n1 adds and n2 observes; n1 then advances and removes the item.
    // After n2 merges, neither the set nor the counter map holds it.
    let n1 = node();
    let n2 = node();
    let mut l1 = ShoppingList::new_v2(n1);
    l1.add_or_update_item("milk".to_string(), 2, false);
    let mut l2 = ShoppingList::new_v2(n2);
    l2.merge(&l1);
    assert!(l2.awset.contains("milk"));
    l1.add_or_update_item("tea".to_string(), 1, false);
    l1.remove_item("milk".to_string());
    l2.merge(&l1);
    assert!(!l2.awset.contains("milk"));
    assert!(l2.items.iter().all(|e| e.0 != "milk"));
}

#[test]
fn mark_as_purchased_transfers_quantity() {
    let n1 = node();
    let mut l = ShoppingListCRDTV2::new_v2(n1);
    l.add_or_update_needed_item("milk".to_string(), 5, false);
    assert!(l.mark_as_purchased("milk".to_string(), 2));
    assert_eq!(dual_counter(&l.needed_items, "milk").unwrap().get_count(), 3);
    assert_eq!(dual_counter(&l.purchased_items, "milk").unwrap().get_count(), 2);
}

#[test]
fn mark_as_purchased_absent_item_is_a_no_op() {
    let n1 = node();
    let mut l = ShoppingListCRDTV2::new_v2(n1);
    let before = l.clone();
    assert!(!l.mark_as_purchased("milk".to_string(), 2));
    assert!(l.same_state(&before));
}

#[test]
fn mark_as_needed_again_transfers_back() {
    let n1 = node();
    let mut l = ShoppingListCRDTV2::new_v2(n1);
    l.add_or_update_needed_item("milk".to_string(), 5, false);
    l.mark_as_purchased("milk".to_string(), 4);
    assert!(l.mark_as_needed_again("milk".to_string(), 3));
    assert_eq!(dual_counter(&l.needed_items, "milk").unwrap().get_count(), 4);
    assert_eq!(dual_counter(&l.purchased_items, "milk").unwrap().get_count(), 1);
}

#[test]
fn mark_as_needed_again_absent_item_is_a_no_op() {
    let n1 = node();
    let mut l = ShoppingListCRDTV2::new_v2(n1);
    let before = l.clone();
    assert!(!l.mark_as_needed_again("milk".to_string(), 2));
    assert!(l.same_state(&before));
    assert!(!l.awset.contains("milk"));
}

#[test]
fn transfer_leg_overflow_is_reported() {
    let n1 = node();
    let mut l = ShoppingListCRDTV2::new_v2(n1);
    l.add_or_update_needed_item("milk".to_string(), u32::MAX, false);
    assert!(l.mark_as_purchased("milk".to_string(), u32::MAX));
    // Both magnitudes for "milk" are saturated: the shrink leg of a
    // further purchase would overflow, so the transfer is dropped and
    // reported.
    assert!(!l.mark_as_purchased("milk".to_string(), 1));
    assert_eq!(dual_counter(&l.needed_items, "milk").unwrap().get_count(), 0);
    // Transferring back: the purchased side shrinks, but growing the
    // saturated needed magnitude is dropped, and the call reports it.
    assert!(!l.mark_as_needed_again("milk".to_string(), 1));
    assert_eq!(dual_counter(&l.needed_items, "milk").unwrap().get_count(), 0);
    assert_eq!(
        dual_counter(&l.purchased_items, "milk").unwrap().get_count(),
        u32::MAX - 1,
    );
}

#[test]
fn dual_remove_item_drops_both_buckets() {
    let n1 = node();
    let mut l = ShoppingListCRDTV2::new_v2(n1);
    l.add_or_update_needed_item("milk".to_string(), 5, false);
    l.mark_as_purchased("milk".to_string(), 2);
    l.remove_item("milk".to_string());
    assert!(l.needed_items.is_empty());
    assert!(l.purchased_items.is_empty());
    assert!(!l.awset.contains("milk"));
}

#[test]
fn dual_merge_reconciles_both_buckets() {
    let n1 = node();
    let n2 = node();
    let mut l1 = ShoppingListCRDTV2::new_v2(n1);
    l1.add_or_update_needed_item("milk".to_string(), 4, false);
    l1.mark_as_purchased("milk".to_string(), 1);
    let mut l2 = ShoppingListCRDTV2::new_v2(n2);
    l2.add_or_update_needed_item("milk".to_string(), 2, false);
    l1.merge(&l2);
    // needed: (4 - 1) from n1 plus 2 from n2; purchased: 1 from n1
    assert_eq!(dual_counter(&l1.needed_items, "milk").unwrap().get_count(), 5);
    assert_eq!(dual_counter(&l1.purchased_items, "milk").unwrap().get_count(), 1);
}

#[test]
fn get_items_lists_live_names() {
    let n1 = node();
    let mut l = ShoppingList::new_v2(n1);
    l.add_or_update_item("milk".to_string(), 1, false);
    l.add_or_update_item("tea".to_string(), 2, false);
    l.remove_item("milk".to_string());
    let items = l.get_items();
    assert_eq!(items, vec!["tea".to_string()]);
}
