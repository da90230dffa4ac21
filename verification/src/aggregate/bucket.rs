//! Statistics of one bucket, kept up to date as spans come and go.

use vstd::multiset::Multiset;
use vstd::prelude::*;

use crate::aggregate::types::{stats_of, StackStats};
use crate::tally::{sum_of, sum_of_bound, sum_of_insert, sum_of_remove, Tally};

verus! {

/// The total and self times of the spans in a bucket.
pub struct BucketState {
    count: u64,
    total_sum_ns: u128,
    self_sum_ns: u128,
    totals: Tally,
    selves: Tally,
}

impl BucketState {
    /// The total times of the current contributors.
    pub closed spec fn totals(&self) -> Multiset<u64> {
        self.totals@
    }

    /// The self times of the current contributors.
    pub closed spec fn selves(&self) -> Multiset<u64> {
        self.selves@
    }

    pub closed spec fn wf(&self) -> bool {
        &&& self.totals.wf()
        &&& self.selves.wf()
        &&& self.count == self.totals@.len()
        &&& self.count == self.selves@.len()
        &&& self.total_sum_ns == sum_of(self.totals@)
        &&& self.self_sum_ns == sum_of(self.selves@)
    }

    pub fn new() -> (b: Self)
        ensures
            b.wf(),
            b.totals() == Multiset::<u64>::empty(),
            b.selves() == Multiset::<u64>::empty(),
    {
        BucketState {
            count: 0,
            total_sum_ns: 0,
            self_sum_ns: 0,
            totals: Tally::new(),
            selves: Tally::new(),
        }
    }

    /// Counts one more span.
    pub fn add(&mut self, total_ns: u64, self_ns: u64)
        requires
            old(self).wf(),
            old(self).totals().len() < u64::MAX,
        ensures
            final(self).wf(),
            final(self).totals() == old(self).totals().insert(total_ns),
            final(self).selves() == old(self).selves().insert(self_ns),
    {
        proof {
            let t = self.totals@.insert(total_ns);
            let s = self.selves@.insert(self_ns);
            sum_of_insert(self.totals@, total_ns);
            sum_of_insert(self.selves@, self_ns);
            sum_of_bound(t);
            sum_of_bound(s);
            assert(t.len() <= u64::MAX && s.len() <= u64::MAX);
            assert(t.len() * 0xffff_ffff_ffff_ffff <= 0xffff_ffff_ffff_ffff
                * 0xffff_ffff_ffff_ffff) by (nonlinear_arith)
                requires
                    t.len() <= 0xffff_ffff_ffff_ffff,
            ;
            assert(s.len() * 0xffff_ffff_ffff_ffff <= 0xffff_ffff_ffff_ffff
                * 0xffff_ffff_ffff_ffff) by (nonlinear_arith)
                requires
                    s.len() <= 0xffff_ffff_ffff_ffff,
            ;
        }
        self.count = self.count + 1;
        self.total_sum_ns = self.total_sum_ns + total_ns as u128;
        self.self_sum_ns = self.self_sum_ns + self_ns as u128;
        self.totals.add(total_ns);
        self.selves.add(self_ns);
    }

    /// Forgets a span that was counted before.
    pub fn remove(&mut self, total_ns: u64, self_ns: u64)
        requires
            old(self).wf(),
            old(self).totals().contains(total_ns),
            old(self).selves().contains(self_ns),
        ensures
            final(self).wf(),
            final(self).totals() == old(self).totals().remove(total_ns),
            final(self).selves() == old(self).selves().remove(self_ns),
    {
        proof {
            sum_of_remove(self.totals@, total_ns);
            sum_of_remove(self.selves@, self_ns);
            assert(self.totals@.count(total_ns) <= self.totals@.len());
        }
        self.count = self.count - 1;
        self.total_sum_ns = self.total_sum_ns - total_ns as u128;
        self.self_sum_ns = self.self_sum_ns - self_ns as u128;
        self.totals.take(total_ns);
        self.selves.take(self_ns);
    }

    pub fn is_empty(&self) -> (r: bool)
        requires
            self.wf(),
        ensures
            r == (self.totals().len() == 0),
    {
        self.count == 0
    }

    pub fn to_stack_stats(&self) -> (r: StackStats)
        requires
            self.wf(),
        ensures
            r == stats_of(self.totals(), self.selves()),
    {
        let (total_min, total_max): (u64, u64) = self.totals.min_max();
        let (self_min, self_max): (u64, u64) = self.selves.min_max();
        StackStats {
            count: self.count,
            total_min_ns: total_min,
            total_max_ns: total_max,
            total_sum_ns: self.total_sum_ns,
            self_min_ns: self_min,
            self_max_ns: self_max,
            self_sum_ns: self.self_sum_ns,
        }
    }
}

/// Forgetting the span that was counted last restores the statistics.
pub proof fn remove_undoes_add(totals: Multiset<u64>, total_ns: u64)
    ensures
        totals.insert(total_ns).remove(total_ns) == totals,
{
    assert(totals.insert(total_ns).remove(total_ns) =~= totals);
}

} // verus!
