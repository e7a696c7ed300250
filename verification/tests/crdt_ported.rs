use shopping_crdt::awset::AWSet;
use shopping_crdt::counter::BoundedPNCounterv2;
use uuid::Uuid;

fn node() -> u128 {
    Uuid::new_v4().as_u128()
}

fn bucket(v: &[(u128, u32)], k: u128) -> Option<u32> {
    v.iter().find(|e| e.0 == k).map(|e| e.1)
}

/// Records a context observation the way the compacted representation
/// stores it: one entry per replica, keeping the highest generation.
fn ctx_observe(v: &mut Vec<(u128, u32)>, node_id: u128, gen: u32) {
    if let Some(e) = v.iter_mut().find(|e| e.0 == node_id) {
        if gen > e.1 {
            e.1 = gen;
        }
    } else {
        v.push((node_id, gen));
    }
}

#[test]
fn crdt_test_increment_bounded_pncounter() {
    let mut counter = BoundedPNCounterv2::new();
    let node_id = node();
    counter.increment(node_id, 5);
    assert_eq!(bucket(&counter.positive_count, node_id).unwrap(), 5);
}

#[test]
fn crdt_test_decrement_bounded_pncounter() {
    let mut counter = BoundedPNCounterv2::new();
    let node_id = node();

    counter.increment(node_id, 5);

    counter.decrement(node_id, 3);

    assert_eq!(bucket(&counter.negative_count, node_id).unwrap(), 3);
}

#[test]
fn crdt_test_get_count_bounded_pncounter() {
    let mut counter = BoundedPNCounterv2::new();
    let node_id = node();
    counter.increment(node_id, 10);
    counter.decrement(node_id, 4);
    assert_eq!(counter.get_count(), 6);
}

#[test]
fn crdt_test_lower_boundary_bounded_pncounter() {
    let mut counter = BoundedPNCounterv2::new();
    let node_id = node();
    counter.increment(node_id, 10);
    counter.decrement(node_id, 4);
    counter.decrement(node_id, 10); // Decrement is bounded by the positive count
    assert_eq!(counter.get_count(), 0);
}

#[test]
fn crdt_test_bounded_pncounter_compare() {
    let mut counter1 = BoundedPNCounterv2::new();
    let mut counter2 = BoundedPNCounterv2::new();
    let node_id = node();

    counter1.increment(node_id, 3);
    counter2.increment(node_id, 5);

    assert!(counter1.compare(&counter2));
}

#[test]
fn crdt_test_merge_same_keys() {
    let mut counter1 = BoundedPNCounterv2::new();
    let mut counter2 = BoundedPNCounterv2::new();

    let node_id = node();
    counter1.increment(node_id, 2);
    counter2.increment(node_id, 3);

    let merged = counter1.merge(&counter2);
    assert_eq!(bucket(&merged.positive_count, node_id).unwrap(), 3);
}

#[test]
fn crdt_test_merge_disjoint_keys() {
    let mut counter1 = BoundedPNCounterv2::new();
    let mut counter2 = BoundedPNCounterv2::new();

    let node1 = node();
    let node2 = node();
    counter1.increment(node1, 2);
    counter2.increment(node2, 3);

    let merged = counter1.merge(&counter2);
    assert_eq!(bucket(&merged.positive_count, node1).unwrap(), 2);
    assert_eq!(bucket(&merged.positive_count, node2).unwrap(), 3);
}

#[test]
fn crdt_test_merge_empty_counters() {
    let counter1 = BoundedPNCounterv2::new();
    let counter2 = BoundedPNCounterv2::new();

    let merged = counter1.merge(&counter2);
    assert!(merged.positive_count.is_empty());
    assert!(merged.negative_count.is_empty());
}

#[test]
fn crdt_test_merge_one_empty_counter() {
    let mut counter1 = BoundedPNCounterv2::new();
    let counter2 = BoundedPNCounterv2::new();

    let node_id = node();
    counter1.increment(node_id, 1);

    let merged = counter1.merge(&counter2);
    assert_eq!(bucket(&merged.positive_count, node_id).unwrap(), 1);
}

#[test]
fn crdt_test_awset_new() {
    let awset = AWSet::new();
    assert!(awset.state.is_empty());
    assert!(awset.context.is_empty());
}

#[test]
fn crdt_test_max_i() {
    let mut awset = AWSet::new();
    let node_id = node();
    ctx_observe(&mut awset.context, node_id, 1);
    ctx_observe(&mut awset.context, node_id, 3);
    ctx_observe(&mut awset.context, node_id, 2);

    assert_eq!(awset.max_i(node_id), 3);
}

#[test]
fn crdt_test_next_i() {
    let mut awset = AWSet::new();
    let node_id = node();
    ctx_observe(&mut awset.context, node_id, 1);
    ctx_observe(&mut awset.context, node_id, 2);

    let next = awset.next_i(node_id);
    assert_eq!(next, (node_id, 3));
}

#[test]
fn crdt_test_context_with_multiple_nodes() {
    let mut awset = AWSet::new();
    let node_id1 = node();
    let node_id2 = node();

    ctx_observe(&mut awset.context, node_id1, 1);
    ctx_observe(&mut awset.context, node_id1, 2);
    ctx_observe(&mut awset.context, node_id2, 1);
    ctx_observe(&mut awset.context, node_id2, 3);

    // max_i per node
    assert_eq!(awset.max_i(node_id1), 2);
    assert_eq!(awset.max_i(node_id2), 3);

    // next_i per node
    let next1 = awset.next_i(node_id1);
    let next2 = awset.next_i(node_id2);
    assert_eq!(next1, (node_id1, 3));
    assert_eq!(next2, (node_id2, 4));
}

#[test]
fn crdt_test_add_new_item() {
    let mut awset = AWSet::new();
    let node_id = node();
    let item_name = "apple".to_string();

    awset.add_i(item_name.clone(), node_id);

    assert!(awset.state.contains(&(item_name, node_id, 1)));
    assert!(awset.context.contains(&(node_id, 1)));
}

#[test]
fn crdt_test_increment_existing_item() {
    let mut awset = AWSet::new();
    let node_id = node();
    let item_name = "apple".to_string();
    awset.state.push((item_name.clone(), node_id, 1));
    ctx_observe(&mut awset.context, node_id, 1);

    awset.add_i(item_name.clone(), node_id);

    assert!(awset.state.contains(&(item_name, node_id, 2)));
    assert!(awset.context.contains(&(node_id, 2)));
}

#[test]
fn crdt_test_decrement_existing_item() {
    let mut awset = AWSet::new();
    let node_id = node();
    let item_name = "apple".to_string();
    awset.state.push((item_name.clone(), node_id, 1));
    ctx_observe(&mut awset.context, node_id, 1);

    awset.add_i(item_name.clone(), node_id);

    assert!(awset.state.contains(&(item_name, node_id, 2)));
    assert!(awset.context.contains(&(node_id, 2)));
}

#[test]
fn test_add_i() {
    let mut awset = AWSet::new();
    let node_id = node();
    let item_name = "apple".to_string();

    awset.add_i(item_name.clone(), node_id);
    assert_eq!(awset.state.contains(&(item_name.clone(), node_id, 1)), true);
}

#[test]
fn crdt_test_rmv_i_existing_item() {
    let mut awset = AWSet::new();
    let node_id = node();
    let item_name = "apple".to_string();

    awset.add_i(item_name.clone(), node_id);
    awset.rmv_i(item_name.clone());

    assert_eq!(awset.state.contains(&(item_name, node_id, 1)), false);
}

#[test]
fn crdt_test_rmv_i_non_existent_item() {
    let mut awset = AWSet::new();
    let node_id = node();
    let item_name = "apple".to_string();
    let non_existent_item = "banana".to_string();

    awset.add_i(item_name.clone(), node_id);
    awset.rmv_i(non_existent_item);

    // The item added first is still there
    assert_eq!(awset.state.contains(&(item_name, node_id, 1)), true);
}

#[test]
fn crdt_test_rmv_i_context_unchanged() {
    let mut awset = AWSet::new();
    let node_id = node();
    let item_name = "apple".to_string();

    awset.add_i(item_name.clone(), node_id);
    let context_before_removal = awset.context.clone();
    awset.rmv_i(item_name);

    // The context stays the same
    assert_eq!(awset.context, context_before_removal);
}

#[test]
fn crdt_test_filter_function() {
    let node_id_1 = node();
    let node_id_2 = node();
    let mut awset_1 = AWSet::new();
    let mut awset_2 = AWSet::new();

    awset_1.state.push(("apple".to_string(), node_id_1, 1));
    ctx_observe(&mut awset_1.context, node_id_1, 2);

    awset_2.state.push(("banana".to_string(), node_id_2, 1));
    ctx_observe(&mut awset_2.context, node_id_2, 2);

    // The other side's context says nothing about node 1, so the
    // entry survives the filter.
    let expected_state = vec![("apple".to_string(), node_id_1, 1)];

    let filtered_state = awset_1.filter(&awset_2);

    assert_eq!(filtered_state, expected_state);
}

#[test]
fn crdt_test_merge_with_overlap() {
    let mut awset1 = AWSet::new();
    let mut awset2 = AWSet::new();

    let node_id1 = node();
    let node_id2 = node();
    let counter1 = 1;
    let counter2 = 2;

    awset1.state.push(("apple".to_string(), node_id1, counter1));
    awset2.state.push(("apple".to_string(), node_id2, counter2));

    // The merged set holds both entries
    awset1.merge(&awset2);
    assert_eq!(awset1.state.len(), 2);
}

#[test]
fn crdt_test_merge_with_distinct_items() {
    let mut awset1 = AWSet::new();
    let mut awset2 = AWSet::new();

    let node_id1 = node();
    let node_id2 = node();
    let counter1 = 1;
    let counter2 = 2;

    awset1.state.push(("apple".to_string(), node_id1, counter1));
    awset2.state.push(("banana".to_string(), node_id2, counter2));

    // The merged set holds both items
    awset1.merge(&awset2);
    assert_eq!(awset1.state.len(), 2);
}

#[test]
fn crdt_test_merge_with_unique_items() {
    let mut awset1 = AWSet::new();
    let awset2 = AWSet::new();

    let node_id = node();
    let counter = 1;

    awset1.state.push(("apple".to_string(), node_id, counter));

    // Merging with an empty set changes nothing
    awset1.merge(&awset2);
    assert_eq!(awset1.state.len(), 1);
    assert!(awset1.state.contains(&("apple".to_string(), node_id, counter)));
}

#[test]
fn crdt_test_merge_with_empty_sets() {
    let mut awset1 = AWSet::new();
    let awset2 = AWSet::new();

    // Merging two empty sets gives an empty set
    awset1.merge(&awset2);
    assert!(awset1.state.is_empty());
}

#[test]
fn crdt_test_elements() {
    let mut awset = AWSet::new();
    let node_id = node();

    awset.add_i("Apple".to_string(), node_id);
    awset.add_i("Banana".to_string(), node_id);
    awset.add_i("Apple".to_string(), node_id); // add on an existing item

    let elements = awset.elements();
    assert_eq!(elements.len(), 2); // two distinct items
    assert!(elements.contains(&"Apple".to_string()));
    assert!(elements.contains(&"Banana".to_string()));
}

#[test]
fn crdt_test_contains() {
    let mut awset = AWSet::new();
    let node_id = node();

    awset.add_i("Apple".to_string(), node_id);

    assert!(awset.contains("Apple"));
    assert!(!awset.contains("Banana"));
}
