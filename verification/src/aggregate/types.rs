//! Identity and statistics of an aggregation row.

use vstd::multiset::Multiset;
use vstd::prelude::*;

use crate::order::{Key, Rel};
use crate::protocol::Text;
use crate::tally::{greatest, least, sum_of};

verus! {

/// Statistics over the spans of one bucket.
#[derive(Debug, Clone, Copy, PartialEq, Eq, Structural)]
pub struct StackStats {
    pub count: u64,
    pub total_min_ns: u64,
    pub total_max_ns: u64,
    pub total_sum_ns: u128,
    pub self_min_ns: u64,
    pub self_max_ns: u64,
    pub self_sum_ns: u128,
}

/// The statistics of spans with the given total and self times.
pub open spec fn stats_of(totals: Multiset<u64>, selves: Multiset<u64>) -> StackStats {
    StackStats {
        count: totals.len() as u64,
        total_min_ns: least(totals),
        total_max_ns: greatest(totals),
        total_sum_ns: sum_of(totals) as u128,
        self_min_ns: least(selves),
        self_max_ns: greatest(selves),
        self_sum_ns: sum_of(selves) as u128,
    }
}

/// The quotient of a sum by a count, zero when there is nothing to count.
/// Only the low 64 bits of a larger quotient are kept.
pub open spec fn average(sum: u128, count: u64) -> u64 {
    if count == 0 {
        0
    } else {
        (sum / (count as u128)) as u64
    }
}

impl Default for StackStats {
    fn default() -> (r: Self)
        ensures
            r == (StackStats {
                count: 0,
                total_min_ns: 0,
                total_max_ns: 0,
                total_sum_ns: 0,
                self_min_ns: 0,
                self_max_ns: 0,
                self_sum_ns: 0,
            }),
    {
        StackStats {
            count: 0,
            total_min_ns: 0,
            total_max_ns: 0,
            total_sum_ns: 0,
            self_min_ns: 0,
            self_max_ns: 0,
            self_sum_ns: 0,
        }
    }
}

impl StackStats {
    pub fn total_avg_ns(&self) -> (r: u64)
        ensures
            r == average(self.total_sum_ns, self.count),
    {
        if self.count == 0 {
            0
        } else {
            #[verifier::truncate]
            let avg: u64 = (self.total_sum_ns / self.count as u128) as u64;
            avg
        }
    }

    pub fn self_avg_ns(&self) -> (r: u64)
        ensures
            r == average(self.self_sum_ns, self.count),
    {
        if self.count == 0 {
            0
        } else {
            #[verifier::truncate]
            let avg: u64 = (self.self_sum_ns / self.count as u128) as u64;
            avg
        }
    }
}

/// Identity of an aggregation row: spans share a bucket when they share the
/// names of all their ancestors and the values of the split keys.
#[derive(Debug, Clone, PartialEq, Eq, Hash, PartialOrd, Ord)]
pub struct BucketKey {
    pub stack: Vec<String>,
    /// Pairs of split keys and values, ascending by key.
    pub splits: Vec<(String, String)>,
}

/// What a bucket key says.
pub ghost struct KeyModel {
    pub stack: Seq<Text>,
    pub splits: Seq<(Text, Text)>,
}

/// The order of rows: by split values first, then by stack.
pub open spec fn row_less(a: KeyModel, b: KeyModel) -> bool {
    <(Vec<(String, String)>, Vec<String>) as Key>::less((a.splits, a.stack), (b.splits, b.stack))
}

impl Key for BucketKey {
    type Model = KeyModel;

    open spec fn model(&self) -> KeyModel {
        KeyModel { stack: self.stack.model(), splits: self.splits.model() }
    }

    open spec fn less(a: KeyModel, b: KeyModel) -> bool {
        row_less(a, b)
    }

    proof fn irreflexive(a: KeyModel) {
        <(Vec<(String, String)>, Vec<String>) as Key>::irreflexive((a.splits, a.stack));
    }

    proof fn transitive(a: KeyModel, b: KeyModel, c: KeyModel) {
        <(Vec<(String, String)>, Vec<String>) as Key>::transitive(
            (a.splits, a.stack),
            (b.splits, b.stack),
            (c.splits, c.stack),
        );
    }

    proof fn total(a: KeyModel, b: KeyModel) {
        <(Vec<(String, String)>, Vec<String>) as Key>::total(
            (a.splits, a.stack),
            (b.splits, b.stack),
        );
    }

    fn compare(&self, other: &Self) -> (r: Rel) {
        match self.splits.compare(&other.splits) {
            Rel::Less => Rel::Less,
            Rel::Greater => Rel::Greater,
            Rel::Same => self.stack.compare(&other.stack),
        }
    }

    fn duplicate(&self) -> (r: Self) {
        BucketKey { stack: self.stack.duplicate(), splits: self.splits.duplicate() }
    }
}

} // verus!
