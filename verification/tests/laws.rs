//! Concrete instances of the merge laws: commutativity, associativity
//! and idempotence for every lattice, plus non-negativity of the
//! bounded counter's value and convergence across interleavings.

use shopping_crdt::awset::AWSet;
use shopping_crdt::counter::BoundedPNCounterv2;
use shopping_crdt::dual::ShoppingListCRDTV2;
use shopping_crdt::list::ShoppingList;
use uuid::Uuid;

fn node() -> u128 {
    Uuid::new_v4().as_u128()
}

fn sample_counters() -> (BoundedPNCounterv2, BoundedPNCounterv2, BoundedPNCounterv2, u128, u128) {
    let n1 = node();
    let n2 = node();
    let mut a = BoundedPNCounterv2::new();
    a.increment(n1, 7);
    a.decrement(n1, 2);
    let mut b = BoundedPNCounterv2::new();
    b.increment(n1, 4);
    b.increment(n2, 9);
    let mut c = BoundedPNCounterv2::new();
    c.increment(n2, 1);
    c.decrement(n2, 1);
    (a, b, c, n1, n2)
}

#[test]
fn counter_merge_commutes_on_values() {
    let (a, b, _, _, _) = sample_counters();
    let ab = a.merge(&b);
    let ba = b.merge(&a);
    assert!(ab.same_state(&ba));
}

#[test]
fn counter_merge_associates_on_values() {
    let (a, b, c, _, _) = sample_counters();
    let ab_c = a.merge(&b).merge(&c);
    let a_bc = a.merge(&b.merge(&c));
    assert!(ab_c.same_state(&a_bc));
}

#[test]
fn counter_merge_idempotent_on_values() {
    let (a, _, _, _, _) = sample_counters();
    let aa = a.merge(&a);
    assert!(aa.same_state(&a));
}

#[test]
fn counter_value_never_negative() {
    let n1 = node();
    let n2 = node();
    let mut a = BoundedPNCounterv2::new();
    a.increment(n1, 7);
    a.decrement(n1, 2);
    assert_eq!(a.get_count(), 5);
    a.decrement(n1, 1000); // clamped to the full grown amount
    assert_eq!(a.get_count(), 0);
    a.increment(n2, 3);
    a.decrement(n2, 10); // clamped again, per replica
    assert_eq!(a.get_count(), 0);
    let mut b = BoundedPNCounterv2::new();
    b.decrement(n1, 3); // shrinking what never grew leaves zero
    assert_eq!(b.get_count(), 0);
}

fn sample_sets() -> (AWSet, AWSet, AWSet) {
    let n1 = node();
    let n2 = node();
    let n3 = node();
    let mut a = AWSet::new();
    a.add_i("apple".to_string(), n1);
    a.add_i("pear".to_string(), n1);
    a.rmv_i("pear".to_string());
    let mut b = a.clone();
    b.add_i("banana".to_string(), n2);
    b.rmv_i("apple".to_string());
    let mut c = AWSet::new();
    c.add_i("apple".to_string(), n3);
    c.add_i("cherry".to_string(), n3);
    (a, b, c)
}

#[test]
fn awset_merge_commutes_on_values() {
    let (a, b, _) = sample_sets();
    let mut ab = a.clone();
    ab.merge(&b);
    let mut ba = b.clone();
    ba.merge(&a);
    assert!(ab.same_state(&ba));
}

#[test]
fn awset_merge_associates_on_values() {
    let (a, b, c) = sample_sets();
    let mut ab_c = a.clone();
    ab_c.merge(&b);
    ab_c.merge(&c);
    let mut bc = b.clone();
    bc.merge(&c);
    let mut a_bc = a.clone();
    a_bc.merge(&bc);
    assert!(ab_c.same_state(&a_bc));
}

#[test]
fn awset_merge_idempotent_on_values() {
    let (a, _, _) = sample_sets();
    let mut aa = a.clone();
    aa.merge(&a);
    assert!(aa.same_state(&a));
}

fn sample_lists() -> (ShoppingList, ShoppingList, ShoppingList) {
    let n1 = node();
    let n2 = node();
    let n3 = node();
    let mut a = ShoppingList::new_v2(n1);
    a.add_or_update_item("milk".to_string(), 2, false);
    a.add_or_update_item("eggs".to_string(), 6, false);
    a.add_or_update_item("eggs".to_string(), 1, true);
    let mut b = ShoppingList::new_v2(n2);
    b.add_or_update_item("milk".to_string(), 3, false);
    b.add_or_update_item("bread".to_string(), 1, false);
    let mut c = ShoppingList::new_v2(n3);
    c.add_or_update_item("milk".to_string(), 1, false);
    c.remove_item("milk".to_string());
    c.add_or_update_item("jam".to_string(), 0, false);
    (a, b, c)
}

#[test]
fn list_merge_commutes_on_values() {
    let (a, b, _) = sample_lists();
    let mut ab = a.clone();
    ab.merge(&b);
    let mut ba = b.clone();
    ba.merge(&a);
    assert!(ab.same_state(&ba));
}

#[test]
fn list_merge_associates_on_values() {
    let (a, b, c) = sample_lists();
    let mut ab_c = a.clone();
    ab_c.merge(&b);
    ab_c.merge(&c);
    let mut bc = b.clone();
    bc.merge(&c);
    let mut a_bc = a.clone();
    a_bc.merge(&bc);
    assert!(ab_c.same_state(&a_bc));
}

#[test]
fn list_merge_idempotent_on_values() {
    let (a, _, _) = sample_lists();
    let mut aa = a.clone();
    aa.merge(&a);
    assert!(aa.same_state(&a));
}

fn sample_duals() -> (ShoppingListCRDTV2, ShoppingListCRDTV2, ShoppingListCRDTV2) {
    let n1 = node();
    let n2 = node();
    let n3 = node();
    let mut a = ShoppingListCRDTV2::new_v2(n1);
    a.add_or_update_needed_item("milk".to_string(), 4, false);
    a.mark_as_purchased("milk".to_string(), 1);
    let mut b = ShoppingListCRDTV2::new_v2(n2);
    b.add_or_update_needed_item("milk".to_string(), 2, false);
    b.add_or_update_needed_item("soap".to_string(), 1, false);
    let mut c = ShoppingListCRDTV2::new_v2(n3);
    c.add_or_update_needed_item("soap".to_string(), 2, false);
    c.mark_as_purchased("soap".to_string(), 2);
    c.mark_as_needed_again("soap".to_string(), 1);
    (a, b, c)
}

#[test]
fn dual_merge_commutes_on_values() {
    let (a, b, _) = sample_duals();
    let mut ab = a.clone();
    ab.merge(&b);
    let mut ba = b.clone();
    ba.merge(&a);
    assert!(ab.same_state(&ba));
}

#[test]
fn dual_merge_associates_on_values() {
    let (a, b, c) = sample_duals();
    let mut ab_c = a.clone();
    ab_c.merge(&b);
    ab_c.merge(&c);
    let mut bc = b.clone();
    bc.merge(&c);
    let mut a_bc = a.clone();
    a_bc.merge(&bc);
    assert!(ab_c.same_state(&a_bc));
}

#[test]
fn dual_merge_idempotent_on_values() {
    let (a, _, _) = sample_duals();
    let mut aa = a.clone();
    aa.merge(&a);
    assert!(aa.same_state(&a));
}

#[test]
fn convergence_across_interleavings() {
    // The same operations land on three replicas; every replica then
    // merges the others' snapshots in a different order, and all end
    // in the same state.
    let n1 = node();
    let n2 = node();
    let n3 = node();
    let mut r1 = ShoppingList::new_v2(n1);
    let mut r2 = ShoppingList::new_v2(n2);
    let mut r3 = ShoppingList::new_v2(n3);
    r1.add_or_update_item("milk".to_string(), 2, false);
    r2.add_or_update_item("milk".to_string(), 5, false);
    r2.remove_item("milk".to_string());
    r2.add_or_update_item("tea".to_string(), 1, false);
    r3.add_or_update_item("rice".to_string(), 7, false);
    r3.add_or_update_item("rice".to_string(), 3, true);

    let mut one = r1.clone();
    one.merge(&r2);
    one.merge(&r3);

    let mut two = r2.clone();
    two.merge(&r3);
    two.merge(&r1);

    let mut three = r3.clone();
    three.merge(&r1);
    three.merge(&r2);

    assert!(one.same_state(&two));
    assert!(two.same_state(&three));
}
