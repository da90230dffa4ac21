//! What the rows of statistics say, said of the spans of the window.

use vstd::multiset::Multiset;
use vstd::prelude::*;

use crate::aggregate::laws::rows_count_every_span;
use crate::aggregate::ring::{rows_of, shares_count, shares_in, EntryModel};
use crate::aggregate::types::{average, KeyModel};
use crate::protocol::SpanModel;
use crate::tally::{extremes_exist, greatest, least, sum_of, sum_of_bound, sum_of_insert};

verus! {

/// How long a span was open, from its two times; nothing for one that is
/// still open, or that closed before it opened.
pub open spec fn time_open(s: SpanModel) -> int {
    if s.closed_at_ns is Some && s.closed_at_ns->0 > s.opened_at_ns {
        s.closed_at_ns->0 - s.opened_at_ns
    } else {
        0
    }
}

/// The part of that time which the span did not spend in its children.
pub open spec fn time_alone(e: EntryModel) -> int {
    if time_open(e.span) > e.child_sum {
        time_open(e.span) - e.child_sum
    } else {
        0
    }
}

/// The time of a span, in all or alone.
pub open spec fn time_of(e: EntryModel, alone: bool) -> int {
    if alone {
        time_alone(e)
    } else {
        time_open(e.span)
    }
}

/// How many spans of the window belong to a bucket.
pub open spec fn spans_in(ring: Seq<EntryModel>, key: KeyModel) -> int
    decreases ring.len(),
{
    if ring.len() == 0 {
        0
    } else {
        spans_in(ring.drop_last(), key) + if ring.last().bucket == key {
            1int
        } else {
            0
        }
    }
}

/// The times of the spans of a bucket, added up.
pub open spec fn times_in(ring: Seq<EntryModel>, key: KeyModel, alone: bool) -> int
    decreases ring.len(),
{
    if ring.len() == 0 {
        0
    } else {
        times_in(ring.drop_last(), key, alone) + if ring.last().bucket == key {
            time_of(ring.last(), alone)
        } else {
            0
        }
    }
}

/// `x` is the least of the times of the spans of a bucket.
pub open spec fn is_least_time(ring: Seq<EntryModel>, key: KeyModel, alone: bool, x: int) -> bool {
    &&& forall|j: int|
        0 <= j < ring.len() && (#[trigger] ring[j]).bucket == key ==> x <= time_of(ring[j], alone)
    &&& exists|j: int|
        0 <= j < ring.len() && (#[trigger] ring[j]).bucket == key && x == time_of(ring[j], alone)
}

/// `x` is the greatest of the times of the spans of a bucket.
pub open spec fn is_greatest_time(
    ring: Seq<EntryModel>,
    key: KeyModel,
    alone: bool,
    x: int,
) -> bool {
    &&& forall|j: int|
        0 <= j < ring.len() && (#[trigger] ring[j]).bucket == key ==> time_of(ring[j], alone) <= x
    &&& exists|j: int|
        0 <= j < ring.len() && (#[trigger] ring[j]).bucket == key && x == time_of(ring[j], alone)
}

/// `x` is the mean of the times of the spans of a bucket, rounded down.
pub open spec fn is_mean_time(ring: Seq<EntryModel>, key: KeyModel, alone: bool, x: int) -> bool {
    x * spans_in(ring, key) <= times_in(ring, key, alone) < (x + 1) * spans_in(ring, key)
}

/// What a bucket's shares are, span by span.
proof fn shares_are_times(ring: Seq<EntryModel>, key: KeyModel, alone: bool)
    ensures
        shares_in(ring, key, alone).len() == spans_in(ring, key),
        sum_of(shares_in(ring, key, alone)) == times_in(ring, key, alone),
        forall|j: int|
            0 <= j < ring.len() && (#[trigger] ring[j]).bucket == key ==> shares_in(
                ring,
                key,
                alone,
            ).contains(time_of(ring[j], alone) as u64),
        forall|x: u64| #[trigger]
            shares_in(ring, key, alone).contains(x) ==> exists|j: int|
                0 <= j < ring.len() && (#[trigger] ring[j]).bucket == key && x == time_of(
                    ring[j],
                    alone,
                ),
    decreases ring.len(),
{
    if ring.len() > 0 {
        let rest = ring.drop_last();
        let had = shares_in(rest, key, alone);
        let all = shares_in(ring, key, alone);
        let last = ring.last();
        shares_are_times(rest, key, alone);
        assert(last.share(alone) == time_of(last, alone));
        if last.bucket == key {
            sum_of_insert(had, last.share(alone));
        }
        assert forall|j: int| 0 <= j < ring.len() && (#[trigger] ring[j]).bucket
            == key implies all.contains(time_of(ring[j], alone) as u64) by {
            if j < rest.len() {
                assert(rest[j] == ring[j]);
                assert(had.contains(time_of(ring[j], alone) as u64));
            }
        }
        assert forall|x: u64| #[trigger] all.contains(x) implies exists|j: int|
            0 <= j < ring.len() && (#[trigger] ring[j]).bucket == key && x == time_of(
                ring[j],
                alone,
            ) by {
            if had.contains(x) {
                let j = choose|j: int|
                    0 <= j < rest.len() && (#[trigger] rest[j]).bucket == key && x == time_of(
                        rest[j],
                        alone,
                    );
                assert(ring[j].bucket == key && x == time_of(ring[j], alone));
            } else {
                assert(ring[ring.len() - 1].bucket == key);
            }
        }
    }
}

/// The least, the greatest and the mean of the shares of a bucket are those
/// of the times of its spans.
proof fn shares_tell_times(ring: Seq<EntryModel>, key: KeyModel, alone: bool)
    requires
        shares_in(ring, key, alone).len() > 0,
        ring.len() <= u64::MAX,
    ensures
        ({
            let m = shares_in(ring, key, alone);
            &&& is_least_time(ring, key, alone, least(m) as int)
            &&& is_greatest_time(ring, key, alone, greatest(m) as int)
            &&& is_mean_time(ring, key, alone, average(sum_of(m) as u128, m.len() as u64) as int)
            &&& sum_of(m) as u128 == times_in(ring, key, alone)
            &&& m.len() as u64 == spans_in(ring, key)
        }),
{
    let m = shares_in(ring, key, alone);
    shares_are_times(ring, key, alone);
    shares_count(ring, key);
    extremes_exist(m);
    assert(m.contains(least(m)) && m.contains(greatest(m)));
    assert forall|j: int| 0 <= j < ring.len() && (#[trigger] ring[j]).bucket
        == key implies least(m) <= time_of(ring[j], alone) <= greatest(m) by {
        let x = time_of(ring[j], alone) as u64;
        assert(m.contains(x));
        assert(x == time_of(ring[j], alone));
    }
    sum_of_bound(m);
    let (n, sum) = (m.len(), sum_of(m));
    assert(n * 0xffff_ffff_ffff_ffff <= 0xffff_ffff_ffff_ffff * 0xffff_ffff_ffff_ffff)
        by (nonlinear_arith)
        requires
            n <= 0xffff_ffff_ffff_ffff,
    ;
    let q = sum / n;
    assert(q * n <= sum < (q + 1) * n && q <= 0xffff_ffff_ffff_ffff) by (nonlinear_arith)
        requires
            q == sum / n,
            n > 0,
            sum <= n * 0xffff_ffff_ffff_ffff,
    ;
    assert(sum as u128 / (n as u128) == q);
}

/// A row counts the spans of its bucket, and gives the least, the mean and
/// the greatest of the times that they were open, and of the times that they
/// spent alone, which is what the time of their children leaves. The mean is
/// rounded down.
pub proof fn rows_tell_the_times_of_their_spans(ring: Seq<EntryModel>, i: int)
    requires
        ring.len() <= u64::MAX,
        0 <= i < rows_of(ring).len(),
    ensures
        ({
            let (key, row) = rows_of(ring)[i];
            &&& row.count == spans_in(ring, key)
            &&& is_least_time(ring, key, false, row.total_min_ns as int)
            &&& is_mean_time(ring, key, false, average(row.total_sum_ns, row.count) as int)
            &&& is_greatest_time(ring, key, false, row.total_max_ns as int)
            &&& is_least_time(ring, key, true, row.self_min_ns as int)
            &&& is_mean_time(ring, key, true, average(row.self_sum_ns, row.count) as int)
            &&& is_greatest_time(ring, key, true, row.self_max_ns as int)
            &&& row.total_sum_ns == times_in(ring, key, false)
            &&& row.self_sum_ns == times_in(ring, key, true)
        }),
{
    let key = rows_of(ring)[i].0;
    rows_count_every_span(ring);
    shares_count(ring, key);
    shares_tell_times(ring, key, false);
    shares_tell_times(ring, key, true);
}

} // verus!
