//! Scalar counters: single-cell lattices without the per-replica
//! partition.
//!
//! `GCounter` only grows; `SimplePNCounter` keeps one grow total and
//! one shrink total.  Both reconcile by taking maxima, which makes
//! their merges commutative, associative and idempotent directly from
//! the contracts below.  Unlike the partitioned counter, these do not
//! bound their value from below.

use vstd::prelude::*;

verus! {

/// A grow-only counter: the count only ever rises.
pub struct GCounter {
    positive_count: i32,
}

impl View for GCounter {
    type V = int;

    closed spec fn view(&self) -> int {
        self.positive_count as int
    }
}

impl Clone for GCounter {
    fn clone(&self) -> (r: Self)
        ensures
            r@ == self@,
    {
        GCounter { positive_count: self.positive_count }
    }
}

impl GCounter {
    /// Creates a counter at zero.
    pub fn new() -> (r: Self)
        ensures
            r@ == 0,
    {
        GCounter { positive_count: 0 }
    }

    /// The accumulated count.
    pub fn get_positive_count(&self) -> (r: i32)
        ensures
            r as int == self@,
    {
        self.positive_count
    }

    /// Adds `ammount` to the count.
    pub fn increment(&mut self, ammount: i32)
        requires
            i32::MIN <= old(self)@ + ammount <= i32::MAX,
        ensures
            final(self)@ == old(self)@ + ammount,
    {
        self.positive_count = self.positive_count + ammount;
    }

    /// The derived value, which for a grow-only counter is the count
    /// itself.
    pub fn get_count(&self) -> (r: i32)
        ensures
            r as int == self@,
    {
        self.positive_count
    }

    /// The lattice partial order: whether this counter is dominated
    /// by the incoming one.
    pub fn compare(&self, inc_pn_counter: &GCounter) -> (r: bool)
        ensures
            r == (self@ <= inc_pn_counter@),
    {
        self.positive_count <= inc_pn_counter.positive_count
    }

    /// Joins the incoming counter into this one by taking the
    /// maximum, which is commutative, associative and idempotent.
    pub fn merge(&mut self, inc_pn_counter: &GCounter)
        ensures
            final(self)@ == if old(self)@ >= inc_pn_counter@ {
                old(self)@
            } else {
                inc_pn_counter@
            },
    {
        if inc_pn_counter.positive_count > self.positive_count {
            self.positive_count = inc_pn_counter.positive_count;
        }
    }
}

/// A grow/shrink counter kept as two scalar totals.
pub struct SimplePNCounter {
    positive_count: i32,
    negative_count: i32,
}

impl View for SimplePNCounter {
    type V = (int, int);

    closed spec fn view(&self) -> (int, int) {
        (self.positive_count as int, self.negative_count as int)
    }
}

impl Clone for SimplePNCounter {
    fn clone(&self) -> (r: Self)
        ensures
            r@ == self@,
    {
        SimplePNCounter {
            positive_count: self.positive_count,
            negative_count: self.negative_count,
        }
    }
}

impl SimplePNCounter {
    /// Creates a counter with both totals at zero.
    pub fn new() -> (r: Self)
        ensures
            r@ == (0int, 0int),
    {
        SimplePNCounter { positive_count: 0, negative_count: 0 }
    }

    /// The accumulated grow total.
    pub fn get_positive_count(&self) -> (r: i32)
        ensures
            r as int == self@.0,
    {
        self.positive_count
    }

    /// The accumulated shrink total.
    pub fn get_negative_count(&self) -> (r: i32)
        ensures
            r as int == self@.1,
    {
        self.negative_count
    }

    /// Adds `ammount` to the grow total.
    pub fn increment(&mut self, ammount: i32)
        requires
            i32::MIN <= old(self)@.0 + ammount <= i32::MAX,
        ensures
            final(self)@ == (old(self)@.0 + ammount, old(self)@.1),
    {
        self.positive_count = self.positive_count + ammount;
    }

    /// Adds `ammount` to the shrink total.
    pub fn decrement(&mut self, ammount: i32)
        requires
            i32::MIN <= old(self)@.1 + ammount <= i32::MAX,
        ensures
            final(self)@ == (old(self)@.0, old(self)@.1 + ammount),
    {
        self.negative_count = self.negative_count + ammount;
    }

    /// The derived value: grow total minus shrink total.
    pub fn get_count(&self) -> (r: i32)
        requires
            i32::MIN <= self@.0 - self@.1 <= i32::MAX,
        ensures
            r as int == self@.0 - self@.1,
    {
        self.positive_count - self.negative_count
    }

    /// The lattice partial order: whether both totals are dominated
    /// by the incoming counter's.
    pub fn compare(&self, inc_pn_counter: &SimplePNCounter) -> (r: bool)
        ensures
            r == (self@.0 <= inc_pn_counter@.0 && self@.1 <= inc_pn_counter@.1),
    {
        self.positive_count <= inc_pn_counter.positive_count && self.negative_count
            <= inc_pn_counter.negative_count
    }

    /// Joins the incoming counter into this one by taking both maxima,
    /// which is commutative, associative and idempotent.
    pub fn merge(&mut self, inc_pn_counter: &SimplePNCounter)
        ensures
            final(self)@.0 == if old(self)@.0 >= inc_pn_counter@.0 {
                old(self)@.0
            } else {
                inc_pn_counter@.0
            },
            final(self)@.1 == if old(self)@.1 >= inc_pn_counter@.1 {
                old(self)@.1
            } else {
                inc_pn_counter@.1
            },
    {
        if inc_pn_counter.positive_count > self.positive_count {
            self.positive_count = inc_pn_counter.positive_count;
        }
        if inc_pn_counter.negative_count > self.negative_count {
            self.negative_count = inc_pn_counter.negative_count;
        }
    }
}

} // verus!
