//! The scalar counters: growth, comparison and max-join merging.

use shopping_crdt::simple::{GCounter, SimplePNCounter};

#[test]
fn gcounter_grows_and_merges_by_max() {
    let mut a = GCounter::new();
    assert_eq!(a.get_count(), 0);
    a.increment(4);
    a.increment(3);
    assert_eq!(a.get_count(), 7);
    assert_eq!(a.get_positive_count(), 7);
    let mut b = GCounter::new();
    b.increment(5);
    assert!(b.compare(&a));
    assert!(!a.compare(&b));
    b.merge(&a);
    assert_eq!(b.get_count(), 7);
    a.merge(&b);
    assert_eq!(a.get_count(), 7);
}

#[test]
fn simple_pn_counter_tracks_both_totals() {
    let mut a = SimplePNCounter::new();
    a.increment(10);
    a.decrement(4);
    assert_eq!(a.get_positive_count(), 10);
    assert_eq!(a.get_negative_count(), 4);
    assert_eq!(a.get_count(), 6);
}

#[test]
fn simple_pn_counter_merges_pointwise() {
    let mut a = SimplePNCounter::new();
    a.increment(10);
    a.decrement(4);
    let mut b = SimplePNCounter::new();
    b.increment(3);
    b.decrement(8);
    assert!(!a.compare(&b));
    assert!(!b.compare(&a));
    let mut ab = a.clone();
    ab.merge(&b);
    let mut ba = b.clone();
    ba.merge(&a);
    assert_eq!(ab.get_positive_count(), 10);
    assert_eq!(ab.get_negative_count(), 8);
    assert_eq!(ab.get_count(), 2);
    assert_eq!(ba.get_positive_count(), ab.get_positive_count());
    assert_eq!(ba.get_negative_count(), ab.get_negative_count());
}
