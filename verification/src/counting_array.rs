//! Dense storage of a fixed number of bounded counters.
//!
//! Each slot is a 32-bit counter.  Increment saturates at the counter's
//! maximum instead of failing; decrement is a no-op at zero, so a counter
//! never underflows.  The slot count is fixed at construction.

use vstd::prelude::*;

verus! {

/// A counter after one saturating increment.
pub open spec fn spec_saturating_inc(c: u32) -> u32 {
    if c == u32::MAX {
        c
    } else {
        (c + 1) as u32
    }
}

/// A counter after one decrement floored at zero.
pub open spec fn spec_floor_dec(c: u32) -> u32 {
    if c == 0 {
        0u32
    } else {
        (c - 1) as u32
    }
}

/// Dense storage of a fixed number of bounded non-negative counters.
pub struct CountingArray {
    counters: Vec<u32>,
}

impl View for CountingArray {
    type V = Seq<u32>;

    closed spec fn view(&self) -> Seq<u32> {
        self.counters@
    }
}

impl CountingArray {
    /// A fresh array of `len` counters, all zero.
    pub fn new(len: usize) -> (r: CountingArray)
        ensures
            r@.len() == len,
            forall|i: int| 0 <= i < len ==> r@[i] == 0u32,
    {
        let mut counters: Vec<u32> = Vec::new();
        let mut i: usize = 0;
        while i < len
            invariant
                i <= len,
                counters@.len() == i,
                forall|j: int| 0 <= j < i ==> counters@[j] == 0u32,
            decreases len - i,
        {
            counters.push(0);
            i = i + 1;
        }
        CountingArray { counters }
    }

    /// Wraps a vector of counter values as an array.
    pub fn from_counts(counters: Vec<u32>) -> (r: CountingArray)
        ensures
            r@ == counters@,
    {
        CountingArray { counters }
    }

    /// The number of counters.
    pub fn len(&self) -> (r: usize)
        ensures
            r == self@.len(),
    {
        self.counters.len()
    }

    /// The counter at slot `i`.
    pub fn get(&self, i: usize) -> (r: u32)
        requires
            i < self@.len(),
        ensures
            r == self@[i as int],
    {
        self.counters[i]
    }

    /// Adds one to the counter at slot `i`, saturating at the counter's
    /// maximum; every other slot is unchanged.
    pub fn increment(&mut self, i: usize)
        requires
            i < old(self)@.len(),
        ensures
            final(self)@ == old(self)@.update(i as int, spec_saturating_inc(old(self)@[i as int])),
    {
        let c = self.counters[i];
        if c < u32::MAX {
            self.counters.set(i, c + 1);
        } else {
            proof {
                assert(self@ =~= old(self)@.update(
                    i as int,
                    spec_saturating_inc(old(self)@[i as int]),
                ));
            }
        }
    }

    /// Subtracts one from the counter at slot `i`, a no-op at zero; every
    /// other slot is unchanged.
    pub fn decrement(&mut self, i: usize)
        requires
            i < old(self)@.len(),
        ensures
            final(self)@ == old(self)@.update(i as int, spec_floor_dec(old(self)@[i as int])),
    {
        let c = self.counters[i];
        if c > 0 {
            self.counters.set(i, c - 1);
        } else {
            proof {
                assert(self@ =~= old(self)@.update(
                    i as int,
                    spec_floor_dec(old(self)@[i as int]),
                ));
            }
        }
    }
}

} // verus!
