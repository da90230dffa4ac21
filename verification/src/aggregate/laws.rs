//! What holds of the window whatever arrives.

use vstd::multiset::Multiset;
use vstd::prelude::*;

use crate::aggregate::ring::{
    absorbed, admitted, bucket_for, buckets_of, child_bucket, credited, credited_each,
    debited_each, has_id, index_of_id, is_lowest_parent, joined, joined_keeps, lowest_parent,
    newest_stands, not_waiting_for, occupied, parked, parked_adds_at_most_one, pending_cap,
    rebucketed_keeps_spans, resplit, root_bucket, rows_of, settled, shares_count, shares_in,
    span_total, unique_ids, waiting_for, waiting_is_partition, with_room, with_room_keeps,
    without_oldest, AggModel, EntryModel,
};
use crate::aggregate::types::{average, row_less, BucketKey, KeyModel, StackStats};
use crate::order::{key_order, key_order_is_strict};
use crate::protocol::{SpanModel, Text};
use crate::sorted::{finite_sets_are_listed, listing};
use crate::tally::{
    greatest, least, mean_lies_between, sum_of, sum_of_bound, sum_of_insert,
};

verus! {

/// Every waiting span has a parent to wait for.
pub open spec fn all_wait(pending: Seq<SpanModel>) -> bool {
    forall|i: int| 0 <= i < pending.len() ==> (#[trigger] pending[i]).parent_id is Some
}

/// The window and the waiting spans keep to their limits.
pub open spec fn bounded(m: AggModel) -> bool {
    &&& m.budget > 0
    &&& m.ring.len() <= m.budget
    &&& m.pending.len() <= pending_cap(m.budget)
    &&& all_wait(m.pending)
}

proof fn filter_keeps_waiting(pending: Seq<SpanModel>, p: spec_fn(SpanModel) -> bool)
    requires
        all_wait(pending),
    ensures
        all_wait(pending.filter(p)),
        pending.filter(p).len() <= pending.len(),
    decreases pending.len(),
{
    reveal(Seq::filter);
    if pending.len() > 0 {
        filter_keeps_waiting(pending.drop_last(), p);
    }
}

/// Some span waits for the smallest id waited for.
proof fn lowest_parent_exists(pending: Seq<SpanModel>)
    requires
        all_wait(pending),
        pending.len() > 0,
    ensures
        is_lowest_parent(pending, lowest_parent(pending)),
    decreases pending.len(),
{
    let front = pending.drop_last();
    let last = pending.last().parent_id->0;
    assert(pending[pending.len() - 1].parent_id == Some(last));
    if front.len() == 0 {
        assert(is_lowest_parent(pending, last));
    } else {
        lowest_parent_exists(front);
        let low = lowest_parent(front);
        let least = if last < low { last } else { low };
        let k = choose|k: int| 0 <= k < front.len() && (#[trigger] front[k]).parent_id == Some(low);
        assert(pending[k].parent_id == Some(low));
        assert forall|i: int| 0 <= i < pending.len() implies match (#[trigger] pending[i]).parent_id {
            Some(p) => least <= p,
            None => true,
        } by {
            if i < front.len() {
                assert(front[i] == pending[i]);
            }
        }
        assert(is_lowest_parent(pending, least));
    }
}

proof fn dropping_shortens(pending: Seq<SpanModel>, k: int, id: u64)
    requires
        0 <= k < pending.len(),
        pending[k].parent_id == Some(id),
    ensures
        not_waiting_for(pending, id).len() < pending.len(),
{
    waiting_is_partition(pending, id);
    let p = |s: SpanModel| s.parent_id == Some(id);
    pending.lemma_filter_contains(p, k);
    assert(waiting_for(pending, id).len() > 0);
}

proof fn parked_is_bounded(m: AggModel, span: SpanModel)
    requires
        bounded(m),
        span.parent_id is Some,
    ensures
        bounded(parked(m, span)),
{
    let all = m.pending.push(span);
    assert(all_wait(all)) by {
        assert forall|i: int| 0 <= i < all.len() implies (#[trigger] all[i]).parent_id is Some by {
            if i < m.pending.len() {
                assert(all[i] == m.pending[i]);
            }
        }
    }
    if all.len() > pending_cap(m.budget) {
        lowest_parent_exists(all);
        let low = lowest_parent(all);
        let k = choose|k: int| 0 <= k < all.len() && (#[trigger] all[k]).parent_id == Some(low);
        dropping_shortens(all, k, low);
        filter_keeps_waiting(all, |s: SpanModel| s.parent_id != Some(low));
    }
}

proof fn joined_len(ring: Seq<EntryModel>, span: SpanModel, bucket: KeyModel, budget: nat)
    requires
        budget > 0,
        ring.len() <= budget,
    ensures
        joined(ring, span, bucket, budget).len() <= budget,
{
    joined_keeps(ring, span, bucket, budget);
    with_room_keeps(ring, budget);
}

proof fn settled_is_bounded(m: AggModel, todo: Seq<SpanModel>)
    requires
        bounded(m),
    ensures
        bounded(settled(m, todo).0),
    decreases m.pending.len() + todo.len(), todo.len(),
{
    if todo.len() > 0 {
        let span = todo[0];
        let rest = todo.skip(1);
        match bucket_for(m, span) {
            None => {
                parked_adds_at_most_one(m, span);
                parked_is_bounded(m, span);
                settled_is_bounded(parked(m, span), rest);
            },
            Some(bucket) => {
                waiting_is_partition(m.pending, span.id);
                joined_len(m.ring, span, bucket, m.budget);
                filter_keeps_waiting(m.pending, |s: SpanModel| s.parent_id != Some(span.id));
                settled_is_bounded(
                    admitted(m, span, bucket),
                    waiting_for(m.pending, span.id) + rest,
                );
            },
        }
    }
}

/// Whatever arrives, the window holds no more spans than its budget, and no
/// more than the allowed number wait for their parent.
pub proof fn window_stays_bounded(m: AggModel, span: SpanModel)
    requires
        bounded(m),
    ensures
        bounded(absorbed(m, span).0),
{
    settled_is_bounded(m, seq![span]);
}

/// Other split keys leave the window and the waiting spans within their
/// limits; the same split keys change nothing.
pub proof fn resplit_stays_bounded(m: AggModel, keys: Set<Text>)
    requires
        bounded(m),
    ensures
        bounded(resplit(m, keys)),
        resplit(m, m.split_keys) == m,
        resplit(m, keys).pending == m.pending,
{
    rebucketed_keeps_spans(m.ring, keys);
}

/// The time that the children of `id` in the window took.
pub open spec fn children_time(ring: Seq<EntryModel>, id: u64) -> nat
    decreases ring.len(),
{
    if ring.len() == 0 {
        0
    } else {
        children_time(ring.drop_last(), id) + if ring.last().span.parent_id == Some(id) {
            ring.last().total_ns() as nat
        } else {
            0
        }
    }
}

/// The time that all spans of the window took.
pub open spec fn window_time(ring: Seq<EntryModel>) -> nat
    decreases ring.len(),
{
    if ring.len() == 0 {
        0
    } else {
        window_time(ring.drop_last()) + ring.last().total_ns() as nat
    }
}

/// The time that some spans took.
pub open spec fn spans_time(spans: Seq<SpanModel>) -> nat
    decreases spans.len(),
{
    if spans.len() == 0 {
        0
    } else {
        spans_time(spans.drop_last()) + span_total(spans.last()) as nat
    }
}

/// How many spans of the window have the given id.
pub open spec fn window_count(ring: Seq<EntryModel>, id: u64) -> nat
    decreases ring.len(),
{
    if ring.len() == 0 {
        0
    } else {
        window_count(ring.drop_last(), id) + if ring.last().span.id == id {
            1nat
        } else {
            0
        }
    }
}

/// How many of some spans have the given id.
pub open spec fn spans_count(spans: Seq<SpanModel>, id: u64) -> nat
    decreases spans.len(),
{
    if spans.len() == 0 {
        0
    } else {
        spans_count(spans.drop_last(), id) + if spans.last().id == id {
            1nat
        } else {
            0
        }
    }
}

/// The time of the children of span `i` is that of its children in the
/// window.
pub open spec fn sum_follows(ring: Seq<EntryModel>, i: int) -> bool {
    ring[i].child_sum as nat == children_time(ring, ring[i].span.id)
}

/// The bucket of span `i` is its own where it has no parent, and follows from
/// that of its parent while the parent is there.
pub open spec fn bucket_follows(ring: Seq<EntryModel>, keys: Set<Text>, i: int) -> bool {
    match ring[i].span.parent_id {
        None => ring[i].bucket == root_bucket(ring[i].span, keys),
        Some(p) => has_id(ring, p) ==> ring[i].bucket == child_bucket(
            ring[index_of_id(ring, p)].bucket,
            ring[i].span,
            keys,
        ),
    }
}

/// What the window says of each of its spans is what the window as a whole
/// says.
pub open spec fn consistent(ring: Seq<EntryModel>, keys: Set<Text>) -> bool {
    &&& unique_ids(ring)
    &&& forall|i: int| 0 <= i < ring.len() ==> #[trigger] sum_follows(ring, i)
    &&& forall|i: int| 0 <= i < ring.len() ==> #[trigger] bucket_follows(ring, keys, i)
}

/// The parent of span `i` of the window is not still to come.
pub open spec fn parent_came(m: AggModel, todo: Seq<SpanModel>, i: int) -> bool {
    match m.ring[i].span.parent_id {
        Some(p) => spans_count(m.pending, p) + spans_count(todo, p) == 0,
        None => true,
    }
}

/// How often an id is in the window, waits, or is still to come.
pub open spec fn uses_of(m: AggModel, todo: Seq<SpanModel>, id: u64) -> nat {
    window_count(m.ring, id) + spans_count(m.pending, id) + spans_count(todo, id)
}

/// No id comes twice, none that a span of the window names as its parent is
/// still to come, and all times together can be counted.
pub open spec fn fresh(m: AggModel, todo: Seq<SpanModel>) -> bool {
    &&& forall|id: u64| #[trigger] uses_of(m, todo, id) <= 1
    &&& forall|i: int| 0 <= i < m.ring.len() ==> #[trigger] parent_came(m, todo, i)
    &&& window_time(m.ring) + spans_time(m.pending) + spans_time(todo) <= u64::MAX
}

/// Two windows hold the same spans.
pub open spec fn same_spans(a: Seq<EntryModel>, b: Seq<EntryModel>) -> bool {
    a.len() == b.len() && forall|i: int|
        0 <= i < a.len() ==> (#[trigger] a[i]).span == (#[trigger] b[i]).span
}

/// Windows with the same spans agree on all times and counts.
pub proof fn same_spans_count(a: Seq<EntryModel>, b: Seq<EntryModel>, id: u64)
    requires
        same_spans(a, b),
    ensures
        children_time(a, id) == children_time(b, id),
        window_time(a) == window_time(b),
        window_count(a, id) == window_count(b, id),
    decreases a.len(),
{
    if a.len() > 0 {
        assert(a[a.len() - 1].span == b[b.len() - 1].span);
        assert forall|i: int| 0 <= i < a.drop_last().len() implies (#[trigger] a.drop_last()[i]).span
            == (#[trigger] b.drop_last()[i]).span by {
            assert(a[i].span == b[i].span);
        }
        same_spans_count(a.drop_last(), b.drop_last(), id);
    }
}

/// What a span that joins brings with it.
pub proof fn count_push(ring: Seq<EntryModel>, e: EntryModel, id: u64)
    ensures
        children_time(ring.push(e), id) == children_time(ring, id) + if e.span.parent_id == Some(id) {
            e.total_ns() as nat
        } else {
            0
        },
        window_time(ring.push(e)) == window_time(ring) + e.total_ns(),
        window_count(ring.push(e), id) == window_count(ring, id) + if e.span.id == id {
            1nat
        } else {
            0
        },
{
    assert(ring.push(e).drop_last() =~= ring);
}

/// What a span that leaves takes with it.
pub proof fn count_remove(ring: Seq<EntryModel>, i: int, id: u64)
    requires
        0 <= i < ring.len(),
    ensures
        children_time(ring, id) == children_time(ring.remove(i), id) + if ring[i].span.parent_id
            == Some(id) {
            ring[i].total_ns() as nat
        } else {
            0
        },
        window_time(ring) == window_time(ring.remove(i)) + ring[i].total_ns(),
        window_count(ring, id) == window_count(ring.remove(i), id) + if ring[i].span.id == id {
            1nat
        } else {
            0
        },
    decreases ring.len(),
{
    if i == ring.len() - 1 {
        assert(ring.remove(i) =~= ring.drop_last());
    } else {
        count_remove(ring.drop_last(), i, id);
        assert(ring.remove(i).drop_last() =~= ring.drop_last().remove(i));
        assert(ring.remove(i).last() == ring.last());
        assert(ring.drop_last()[i] == ring[i]);
    }
}

proof fn children_within_window(ring: Seq<EntryModel>, id: u64)
    ensures
        children_time(ring, id) <= window_time(ring),
    decreases ring.len(),
{
    if ring.len() > 0 {
        children_within_window(ring.drop_last(), id);
    }
}

/// No id is counted more often than there are spans.
pub proof fn count_is_small(ring: Seq<EntryModel>, id: u64)
    ensures
        window_count(ring, id) <= ring.len(),
    decreases ring.len(),
{
    if ring.len() > 0 {
        count_is_small(ring.drop_last(), id);
    }
}

/// An id is in the window where it is counted.
pub proof fn count_finds(ring: Seq<EntryModel>, id: u64)
    ensures
        has_id(ring, id) <==> window_count(ring, id) > 0,
    decreases ring.len(),
{
    if ring.len() > 0 {
        let front = ring.drop_last();
        count_finds(front, id);
        if has_id(front, id) {
            let i = choose|i: int| 0 <= i < front.len() && (#[trigger] front[i]).span.id == id;
            assert(ring[i].span.id == id);
        }
        if has_id(ring, id) {
            let i = choose|i: int| 0 <= i < ring.len() && (#[trigger] ring[i]).span.id == id;
            if i < front.len() {
                assert(front[i].span.id == id);
            }
        }
        if ring.last().span.id == id {
            assert(ring[ring.len() - 1].span.id == id);
        }
    }
}

proof fn no_children_no_time(ring: Seq<EntryModel>, id: u64)
    requires
        forall|i: int| 0 <= i < ring.len() ==> (#[trigger] ring[i]).span.parent_id != Some(id),
    ensures
        children_time(ring, id) == 0,
    decreases ring.len(),
{
    if ring.len() > 0 {
        assert(ring[ring.len() - 1].span.parent_id != Some(id));
        assert forall|i: int| 0 <= i < ring.drop_last().len() implies (
        #[trigger] ring.drop_last()[i]).span.parent_id != Some(id) by {
            assert(ring[i].span.parent_id != Some(id));
        }
        no_children_no_time(ring.drop_last(), id);
    }
}

/// The place of an id is the only one.
pub proof fn place_is_only(ring: Seq<EntryModel>, i: int)
    requires
        unique_ids(ring),
        0 <= i < ring.len(),
    ensures
        has_id(ring, ring[i].span.id),
        index_of_id(ring, ring[i].span.id) == i,
{
    let id = ring[i].span.id;
    assert(has_id(ring, id));
    newest_stands(ring, id);
    let k = index_of_id(ring, id);
    if k < i {
        assert(ring[k].span.id != ring[i].span.id);
    } else if i < k {
        assert(ring[i].span.id != ring[k].span.id);
    }
}

proof fn oldest_leaves_consistent(ring: Seq<EntryModel>, keys: Set<Text>)
    requires
        consistent(ring, keys),
        ring.len() > 0,
    ensures
        consistent(without_oldest(ring), keys),
        window_time(without_oldest(ring)) <= window_time(ring),
        forall|id: u64| #[trigger]
            window_count(without_oldest(ring), id) <= window_count(ring, id),
{
    let cut = ring.remove(0);
    let after = without_oldest(ring);
    assert(unique_ids(cut)) by {
        assert forall|a: int, b: int| 0 <= a < b < cut.len() implies (#[trigger] cut[a]).span.id
            != (#[trigger] cut[b]).span.id by {
            assert(ring[a + 1].span.id != ring[b + 1].span.id);
        }
    }
    debited_each(cut, ring[0].span.parent_id, ring[0].total_ns());
    assert(same_spans(after, cut));
    assert forall|j: int| 0 <= j < after.len() implies {
        &&& (#[trigger] after[j]).span == ring[j + 1].span
        &&& after[j].bucket == ring[j + 1].bucket
    } by {
    }
    assert(unique_ids(after)) by {
        assert forall|a: int, b: int| 0 <= a < b < after.len() implies (#[trigger] after[a]).span.id
            != (#[trigger] after[b]).span.id by {
            assert(ring[a + 1].span.id != ring[b + 1].span.id);
        }
    }
    assert forall|j: int| 0 <= j < after.len() implies #[trigger] sum_follows(after, j) by {
        let id = after[j].span.id;
        same_spans_count(after, cut, id);
        count_remove(ring, 0, id);
        assert(sum_follows(ring, j + 1));
    }
    assert forall|j: int| 0 <= j < after.len() implies #[trigger] bucket_follows(after, keys, j) by {
        let whole = ring[j + 1];
        assert(whole.span == after[j].span);
        assert(bucket_follows(ring, keys, j + 1));
        if let Some(p) = whole.span.parent_id {
            if has_id(after, p) {
                newest_stands(after, p);
                let k = index_of_id(after, p);
                place_is_only(ring, k + 1);
            }
        }
    }
    assert forall|id: u64| #[trigger] window_count(after, id) <= window_count(ring, id) by {
        same_spans_count(after, cut, id);
        count_remove(ring, 0, id);
    }
    same_spans_count(after, cut, 0);
    count_remove(ring, 0, 0);
}

proof fn pushed_is_consistent(
    base: Seq<EntryModel>,
    span: SpanModel,
    bucket: KeyModel,
    keys: Set<Text>,
)
    requires
        consistent(base, keys),
        !has_id(base, span.id),
        forall|i: int|
            0 <= i < base.len() ==> (#[trigger] base[i]).span.parent_id != Some(span.id),
        window_time(base) + span_total(span) <= u64::MAX,
        match span.parent_id {
            None => bucket == root_bucket(span, keys),
            Some(p) => p != span.id && (has_id(base, p) ==> bucket == child_bucket(
                base[index_of_id(base, p)].bucket,
                span,
                keys,
            )),
        },
    ensures
        consistent(
            credited(base, span.parent_id, span_total(span)).push(
                EntryModel { span, bucket, child_sum: 0 },
            ),
            keys,
        ),
{
    let paid = credited(base, span.parent_id, span_total(span));
    let e = EntryModel { span, bucket, child_sum: 0 };
    let after = paid.push(e);
    let n = base.len() as int;
    credited_each(base, span.parent_id, span_total(span));
    assert(same_spans(paid, base));
    assert(unique_ids(after)) by {
        assert forall|a: int, b: int| 0 <= a < b < after.len() implies (#[trigger] after[a]).span.id
            != (#[trigger] after[b]).span.id by {
            assert(base[a].span.id == after[a].span.id);
            if b < n {
                assert(base[b].span.id == after[b].span.id);
                assert(base[a].span.id != base[b].span.id);
            }
        }
    }
    assert forall|i: int| 0 <= i < after.len() implies #[trigger] sum_follows(after, i) by {
        let id = after[i].span.id;
        count_push(paid, e, id);
        same_spans_count(paid, base, id);
        children_within_window(base, id);
        if i < n {
            assert(base[i].span.id == id);
            assert(sum_follows(base, i));
        } else {
            no_children_no_time(base, id);
        }
    }
    assert forall|i: int| 0 <= i < after.len() implies #[trigger] bucket_follows(after, keys, i) by {
        if i < n {
            assert(bucket_follows(base, keys, i));
            assert(after[i].span == base[i].span && after[i].bucket == base[i].bucket);
        }
        if let Some(p) = after[i].span.parent_id {
            assert(p != span.id);
            if has_id(after, p) {
                newest_stands(after, p);
                let k = index_of_id(after, p);
                assert(k < n);
                assert(base[k].span.id == p && base[k].bucket == after[k].bucket);
                place_is_only(base, k);
            }
        }
    }
}

proof fn joined_is_consistent(m: AggModel, span: SpanModel, bucket: KeyModel)
    requires
        consistent(m.ring, m.split_keys),
        bucket_for(m, span) == Some(bucket),
        !has_id(m.ring, span.id),
        forall|i: int|
            0 <= i < m.ring.len() ==> (#[trigger] m.ring[i]).span.parent_id != Some(span.id),
        window_time(m.ring) + span_total(span) <= u64::MAX,
    ensures
        consistent(joined(m.ring, span, bucket, m.budget), m.split_keys),
        window_time(joined(m.ring, span, bucket, m.budget)) <= window_time(m.ring) + span_total(
            span,
        ),
        forall|id: u64| #[trigger]
            window_count(joined(m.ring, span, bucket, m.budget), id) <= window_count(m.ring, id)
                + if span.id == id {
                1nat
            } else {
                0
            },
        forall|i: int|
            0 <= i < joined(m.ring, span, bucket, m.budget).len() ==> {
                let e = #[trigger] joined(m.ring, span, bucket, m.budget)[i];
                e.span == span || exists|j: int|
                    0 <= j < m.ring.len() && (#[trigger] m.ring[j]).span == e.span
            },
{
    let keys = m.split_keys;
    let ring = m.ring;
    let base = with_room(ring, m.budget);
    let evicts = ring.len() > 0 && ring.len() >= m.budget;
    let shift: int = if evicts {
        1
    } else {
        0
    };
    with_room_keeps(ring, m.budget);
    joined_keeps(ring, span, bucket, m.budget);
    if evicts {
        oldest_leaves_consistent(ring, keys);
    }
    assert forall|j: int| 0 <= j < base.len() implies {
        &&& (#[trigger] base[j]).span == ring[j + shift].span
        &&& base[j].bucket == ring[j + shift].bucket
    } by {
    }
    if has_id(base, span.id) {
        let k = choose|k: int| 0 <= k < base.len() && (#[trigger] base[k]).span.id == span.id;
        assert(ring[k + shift].span.id == span.id);
    }
    if let Some(p) = span.parent_id {
        assert(has_id(ring, p));
        if has_id(base, p) {
            newest_stands(base, p);
            let k = index_of_id(base, p);
            place_is_only(ring, k + shift);
        }
    }
    pushed_is_consistent(base, span, bucket, keys);
    let paid = credited(base, span.parent_id, span_total(span));
    let e = EntryModel { span, bucket, child_sum: 0 };
    let after = paid.push(e);
    assert(after == joined(ring, span, bucket, m.budget));
    assert(same_spans(paid, base));
    assert forall|i: int| 0 <= i < after.len() implies {
        let x = #[trigger] after[i];
        x.span == span || exists|j: int| 0 <= j < ring.len() && (#[trigger] ring[j]).span == x.span
    } by {
        if i < base.len() {
            assert(after[i].span == base[i].span);
            assert(ring[i + shift].span == after[i].span);
        }
    }
    assert forall|id: u64| #[trigger] window_count(after, id) <= window_count(ring, id)
        + if span.id == id {
        1nat
    } else {
        0
    } by {
        count_push(paid, e, id);
        same_spans_count(paid, base, id);
    }
    count_push(paid, e, 0);
    same_spans_count(paid, base, 0);
}

proof fn counts_of_sum(a: Seq<SpanModel>, b: Seq<SpanModel>, id: u64)
    ensures
        spans_count(a + b, id) == spans_count(a, id) + spans_count(b, id),
        spans_time(a + b) == spans_time(a) + spans_time(b),
    decreases b.len(),
{
    if b.len() == 0 {
        assert(a + b =~= a);
    } else {
        assert((a + b).drop_last() =~= a + b.drop_last());
        counts_of_sum(a, b.drop_last(), id);
    }
}

proof fn counts_of_split(pending: Seq<SpanModel>, parent: u64, id: u64)
    ensures
        spans_count(waiting_for(pending, parent), id) + spans_count(
            not_waiting_for(pending, parent),
            id,
        ) == spans_count(pending, id),
        spans_time(waiting_for(pending, parent)) + spans_time(not_waiting_for(pending, parent))
            == spans_time(pending),
    decreases pending.len(),
{
    reveal(Seq::filter);
    if pending.len() > 0 {
        let front = pending.drop_last();
        counts_of_split(front, parent, id);
        let last = pending.last();
        let w = waiting_for(front, parent);
        let n = not_waiting_for(front, parent);
        assert(w.push(last).drop_last() =~= w);
        assert(n.push(last).drop_last() =~= n);
    }
}

proof fn counts_of_first(todo: Seq<SpanModel>, id: u64)
    requires
        todo.len() > 0,
    ensures
        spans_count(todo, id) == spans_count(todo.skip(1), id) + if todo[0].id == id {
            1nat
        } else {
            0
        },
        spans_time(todo) == spans_time(todo.skip(1)) + span_total(todo[0]),
{
    let one = seq![todo[0]];
    assert(todo =~= one + todo.skip(1));
    counts_of_sum(one, todo.skip(1), id);
    assert(one.drop_last() =~= Seq::empty());
    assert(spans_count(one.drop_last(), id) == 0);
    assert(spans_time(one.drop_last()) == 0);
}

/// A span that begins to wait leaves no id twice.
pub proof fn parked_is_fresh(m: AggModel, todo: Seq<SpanModel>)
    requires
        fresh(m, todo),
        todo.len() > 0,
    ensures
        fresh(parked(m, todo[0]), todo.skip(1)),
{
    let span = todo[0];
    let rest = todo.skip(1);
    let all = m.pending.push(span);
    let after = parked(m, span);
    assert(all.drop_last() =~= m.pending);
    let low = lowest_parent(all);
    assert forall|id: u64|
        #[trigger] spans_count(after.pending, id) <= spans_count(m.pending, id) + if span.id == id {
            1nat
        } else {
            0
        } by {
        counts_of_split(all, low, id);
    }
    counts_of_split(all, low, 0);
    counts_of_first(todo, 0);
    assert forall|id: u64|
        #[trigger] uses_of(after, rest, id) <= 1 by {
        counts_of_first(todo, id);
        assert(uses_of(m, todo, id) <= 1);
        assert(spans_count(after.pending, id) <= spans_count(m.pending, id) + if span.id == id {
            1nat
        } else {
            0
        });
    }
    assert forall|i: int| 0 <= i < after.ring.len() implies #[trigger] parent_came(after, rest, i) by {
        assert(parent_came(m, todo, i));
        if let Some(p) = m.ring[i].span.parent_id {
            counts_of_first(todo, p);
            assert(spans_count(after.pending, p) <= spans_count(m.pending, p) + if span.id == p {
                1nat
            } else {
                0
            });
        }
    }
}

/// A span that joins leaves the window consistent and no id twice.
pub proof fn admitted_is_fresh(m: AggModel, todo: Seq<SpanModel>, bucket: KeyModel)
    requires
        fresh(m, todo),
        consistent(m.ring, m.split_keys),
        todo.len() > 0,
        bucket_for(m, todo[0]) == Some(bucket),
    ensures
        consistent(admitted(m, todo[0], bucket).ring, m.split_keys),
        fresh(
            admitted(m, todo[0], bucket),
            waiting_for(m.pending, todo[0].id) + todo.skip(1),
        ),
{
    let span = todo[0];
    let rest = todo.skip(1);
    let after = admitted(m, span, bucket);
    let w = waiting_for(m.pending, span.id);
    let next = w + rest;
    counts_of_first(todo, span.id);
    assert(uses_of(m, todo, span.id) <= 1);
    count_finds(m.ring, span.id);
    assert forall|i: int| 0 <= i < m.ring.len() implies (#[trigger] m.ring[i]).span.parent_id
        != Some(span.id) by {
        assert(parent_came(m, todo, i));
    }
    joined_is_consistent(m, span, bucket);
    assert forall|id: u64|
        #[trigger] spans_count(after.pending, id) + spans_count(next, id) == spans_count(
            m.pending,
            id,
        ) + spans_count(rest, id) by {
        counts_of_split(m.pending, span.id, id);
        counts_of_sum(w, rest, id);
    }
    counts_of_split(m.pending, span.id, 0);
    counts_of_sum(w, rest, 0);
    assert forall|id: u64|
        #[trigger] uses_of(after, next, id) <= 1 by {
        counts_of_first(todo, id);
        assert(uses_of(m, todo, id) <= 1);
        assert(window_count(after.ring, id) <= window_count(m.ring, id) + if span.id == id {
            1nat
        } else {
            0
        });
        assert(spans_count(after.pending, id) + spans_count(next, id) == spans_count(m.pending, id)
            + spans_count(rest, id));
    }
    assert forall|i: int| 0 <= i < after.ring.len() implies #[trigger] parent_came(after, next, i) by {
        let e = joined(m.ring, span, bucket, m.budget)[i];
        if let Some(p) = e.span.parent_id {
            counts_of_first(todo, p);
            assert(spans_count(after.pending, p) + spans_count(next, p) == spans_count(m.pending, p)
                + spans_count(rest, p));
            if e.span == span {
                assert(has_id(m.ring, p));
                count_finds(m.ring, p);
                assert(uses_of(m, todo, p) <= 1);
            } else {
                let j = choose|j: int|
                    0 <= j < m.ring.len() && (#[trigger] m.ring[j]).span == e.span;
                assert(parent_came(m, todo, j));
            }
        }
    }
}

/// Taking spans in keeps the window consistent, as long as no id comes twice.
pub proof fn settled_is_consistent(m: AggModel, todo: Seq<SpanModel>)
    requires
        consistent(m.ring, m.split_keys),
        fresh(m, todo),
    ensures
        consistent(settled(m, todo).0.ring, m.split_keys),
        fresh(settled(m, todo).0, Seq::empty()),
    decreases m.pending.len() + todo.len(), todo.len(),
{
    if todo.len() > 0 {
        let span = todo[0];
        let rest = todo.skip(1);
        match bucket_for(m, span) {
            None => {
                parked_adds_at_most_one(m, span);
                parked_is_fresh(m, todo);
                settled_is_consistent(parked(m, span), rest);
            },
            Some(bucket) => {
                waiting_is_partition(m.pending, span.id);
                admitted_is_fresh(m, todo, bucket);
                settled_is_consistent(
                    admitted(m, span, bucket),
                    waiting_for(m.pending, span.id) + rest,
                );
            },
        }
    } else {
        assert(todo =~= Seq::empty());
    }
}

/// A parent that is in the window stands before its children.
pub open spec fn parents_first(ring: Seq<EntryModel>) -> bool {
    forall|i: int, j: int|
        0 <= i < ring.len() && 0 <= j < ring.len() && (#[trigger] ring[i]).span.parent_id == Some(
            (#[trigger] ring[j]).span.id,
        ) ==> j < i
}

proof fn joined_keeps_parents_first(m: AggModel, todo: Seq<SpanModel>, bucket: KeyModel)
    requires
        parents_first(m.ring),
        fresh(m, todo),
        todo.len() > 0,
        bucket_for(m, todo[0]) == Some(bucket),
    ensures
        parents_first(joined(m.ring, todo[0], bucket, m.budget)),
{
    let span = todo[0];
    let ring = m.ring;
    counts_of_first(todo, span.id);
    assert(uses_of(m, todo, span.id) <= 1);
    count_finds(ring, span.id);
    let after = joined(ring, span, bucket, m.budget);
    let n = after.len() - 1;
    let shift: int = if ring.len() > 0 && ring.len() >= m.budget {
        1
    } else {
        0
    };
    assert forall|i: int| 0 <= i < n implies (#[trigger] after[i]).span == ring[i + shift].span by {
        joined_keeps(ring, span, bucket, m.budget);
        with_room_keeps(ring, m.budget);
        assert(with_room(ring, m.budget)[i].span == ring[i + shift].span);
    }
    assert(after[n].span == span && n == ring.len() - shift) by {
        joined_keeps(ring, span, bucket, m.budget);
        with_room_keeps(ring, m.budget);
    }
    assert forall|i: int| 0 <= i < n implies (#[trigger] after[i]).span.parent_id != Some(
        span.id,
    ) by {
        assert(parent_came(m, todo, i + shift));
    }
    assert forall|i: int, j: int|
        0 <= i < after.len() && 0 <= j < after.len() && (#[trigger] after[i]).span.parent_id
            == Some((#[trigger] after[j]).span.id) implies j < i by {
        if j < n && i < n {
            assert(ring[i + shift].span.parent_id == Some(ring[j + shift].span.id));
        }
    }
}

/// Taking spans in keeps parents before their children, as long as no id
/// comes twice.
pub proof fn settled_keeps_parents_first(m: AggModel, todo: Seq<SpanModel>)
    requires
        consistent(m.ring, m.split_keys),
        fresh(m, todo),
        parents_first(m.ring),
    ensures
        parents_first(settled(m, todo).0.ring),
    decreases m.pending.len() + todo.len(), todo.len(),
{
    if todo.len() > 0 {
        let span = todo[0];
        let rest = todo.skip(1);
        match bucket_for(m, span) {
            None => {
                parked_adds_at_most_one(m, span);
                parked_is_fresh(m, todo);
                settled_keeps_parents_first(parked(m, span), rest);
            },
            Some(bucket) => {
                waiting_is_partition(m.pending, span.id);
                admitted_is_fresh(m, todo, bucket);
                joined_keeps_parents_first(m, todo, bucket);
                settled_keeps_parents_first(
                    admitted(m, span, bucket),
                    waiting_for(m.pending, span.id) + rest,
                );
            },
        }
    }
}

/// The statistics that are kept up to date as spans arrive and leave are
/// those of the window as a whole, whatever the order of arrival: as long as
/// no id comes twice, every span's children time and bucket stay what the
/// window says. A parent that is in the window stands before its children.
pub proof fn statistics_match_the_window(m: AggModel, span: SpanModel)
    requires
        consistent(m.ring, m.split_keys),
        fresh(m, seq![span]),
    ensures
        consistent(absorbed(m, span).0.ring, m.split_keys),
        fresh(absorbed(m, span).0, Seq::empty()),
        parents_first(m.ring) ==> parents_first(absorbed(m, span).0.ring),
{
    if span.closed_at_ns is Some {
        if parents_first(m.ring) {
            settled_keeps_parents_first(m, seq![span]);
        }
        settled_is_consistent(m, seq![span]);
    } else {
        let one = seq![span];
        let none = Seq::<SpanModel>::empty();
        assert(one.drop_last() =~= none);
        assert forall|id: u64| #[trigger] uses_of(m, none, id) <= 1 by {
            assert(uses_of(m, one, id) <= 1);
        }
        assert forall|i: int| 0 <= i < m.ring.len() implies #[trigger] parent_came(m, none, i) by {
            assert(parent_came(m, one, i));
        }
    }
}

/// The window as it starts keeps to its limits and says what it holds.
pub proof fn empty_window_is_sound(keys: Set<Text>, budget: nat)
    requires
        budget > 0,
    ensures
        ({
            let m = AggModel {
                ring: Seq::empty(),
                pending: Seq::empty(),
                split_keys: keys,
                budget,
            };
            bounded(m) && consistent(m.ring, keys) && fresh(m, Seq::empty()) && parents_first(
                m.ring,
            )
        }),
{
}

/// The span with the given id is in the window, with at most `d` behind it.
spec fn recent(ring: Seq<EntryModel>, id: u64, d: nat) -> bool {
    exists|i: int|
        0 <= i < ring.len() && (#[trigger] ring[i]).span.id == id && ring.len() - 1 - i <= d
}

/// One more span pushes a recent one no further than one place back.
proof fn recent_stays(
    ring: Seq<EntryModel>,
    span: SpanModel,
    bucket: KeyModel,
    budget: nat,
    id: u64,
    d: nat,
)
    requires
        recent(ring, id, d),
        d + 1 < budget,
    ensures
        recent(joined(ring, span, bucket, budget), id, d + 1),
{
    let after = joined(ring, span, bucket, budget);
    let room = with_room(ring, budget);
    joined_keeps(ring, span, bucket, budget);
    with_room_keeps(ring, budget);
    if span.id == id {
        assert(after[after.len() - 1].span.id == id);
    } else {
        let i = choose|i: int|
            0 <= i < ring.len() && (#[trigger] ring[i]).span.id == id && ring.len() - 1 - i <= d;
        let k = i - (ring.len() - room.len());
        assert(room[k].span.id == id && room.len() - 1 - k <= d);
        assert(after[k].span.id == id);
    }
}

/// A span whose parent came recently joins before the parent leaves.
proof fn children_join(m: AggModel, todo: Seq<SpanModel>, parent: u64, d: nat, at: int)
    requires
        recent(m.ring, parent, d),
        d + m.pending.len() + todo.len() <= m.budget,
        0 <= at < todo.len(),
        todo[at].parent_id == Some(parent),
    ensures
        settled(m, todo).1.contains(todo[at].id),
    decreases m.pending.len() + todo.len(), todo.len(),
{
    let span = todo[0];
    let rest = todo.skip(1);
    let child = todo[at];
    assert(has_id(m.ring, parent));
    match bucket_for(m, span) {
        None => {
            parked_adds_at_most_one(m, span);
            assert(rest[at - 1] == child);
            children_join(parked(m, span), rest, parent, d, at - 1);
        },
        Some(bucket) => {
            waiting_is_partition(m.pending, span.id);
            let next = admitted(m, span, bucket);
            let first = waiting_for(m.pending, span.id);
            let (after, ids) = settled(next, first + rest);
            let all = seq![span.id] + ids;
            assert(settled(m, todo).1 == all);
            if at == 0 {
                assert(all[0] == child.id);
            } else {
                recent_stays(m.ring, span, bucket, m.budget, parent, d);
                let k = first.len() + at - 1;
                assert((first + rest)[k] == child);
                children_join(next, first + rest, parent, d + 1, k);
                let x = choose|x: int| 0 <= x < ids.len() && ids[x] == child.id;
                assert(all[x + 1] == child.id);
            }
        },
    }
}

/// When a parent arrives, every span that waited for it joins the window with
/// it.
pub proof fn waiting_children_join_their_parent(m: AggModel, span: SpanModel, i: int)
    requires
        bounded(m),
        span.closed_at_ns is Some,
        bucket_for(m, span) is Some,
        0 <= i < m.pending.len(),
        m.pending[i].parent_id == Some(span.id),
    ensures
        absorbed(m, span).1.contains(m.pending[i].id),
{
    let todo = seq![span];
    let bucket = bucket_for(m, span)->0;
    let next = admitted(m, span, bucket);
    let first = waiting_for(m.pending, span.id);
    waiting_is_partition(m.pending, span.id);
    assert(todo.skip(1) =~= Seq::empty());
    assert(first + todo.skip(1) =~= first);
    assert(next.ring[next.ring.len() - 1].span == span);
    assert(recent(next.ring, span.id, 0));
    let wanted = |s: SpanModel| s.parent_id == Some(span.id);
    m.pending.lemma_filter_contains(wanted, i);
    let at = choose|at: int| 0 <= at < first.len() && first[at] == m.pending[i];
    children_join(next, first, span.id, 0, at);
    let (after, ids) = settled(next, first);
    let all = seq![span.id] + ids;
    assert(settled(m, todo).1 == all);
    let x = choose|x: int| 0 <= x < ids.len() && ids[x] == m.pending[i].id;
    assert(all[x + 1] == m.pending[i].id);
}

/// How many spans some buckets hold together.
pub open spec fn counted(ring: Seq<EntryModel>, keys: Seq<KeyModel>) -> nat
    decreases keys.len(),
{
    if keys.len() == 0 {
        0
    } else {
        counted(ring, keys.drop_last()) + shares_in(ring, keys.last(), false).len()
    }
}

/// One more span counts once, where its bucket is among some that differ.
proof fn one_more_counts(ring: Seq<EntryModel>, keys: Seq<KeyModel>)
    requires
        ring.len() > 0,
        keys.no_duplicates(),
    ensures
        counted(ring, keys) == counted(ring.drop_last(), keys) + if keys.contains(
            ring.last().bucket,
        ) {
            1nat
        } else {
            0
        },
    decreases keys.len(),
{
    if keys.len() > 0 {
        let front = keys.drop_last();
        one_more_counts(ring, front);
        let b = ring.last().bucket;
        if front.contains(b) {
            let i = choose|i: int| 0 <= i < front.len() && front[i] == b;
            assert(keys[i] == b);
        }
        if keys.contains(b) && !front.contains(b) {
            let i = choose|i: int| 0 <= i < keys.len() && keys[i] == b;
            if i < front.len() {
                assert(front[i] == b);
            }
        }
        if keys.last() == b {
            assert(keys[keys.len() - 1] == b);
            if front.contains(b) {
                let i = choose|i: int| 0 <= i < front.len() && front[i] == b;
                assert(keys[i] == keys[keys.len() - 1]);
            }
        }
    }
}

proof fn all_are_counted(ring: Seq<EntryModel>, keys: Seq<KeyModel>)
    requires
        keys.no_duplicates(),
        forall|i: int| 0 <= i < ring.len() ==> keys.contains((#[trigger] ring[i]).bucket),
    ensures
        counted(ring, keys) == ring.len(),
    decreases ring.len(),
{
    if ring.len() > 0 {
        let front = ring.drop_last();
        assert forall|i: int| 0 <= i < front.len() implies keys.contains(
            (#[trigger] front[i]).bucket,
        ) by {
            assert(keys.contains(ring[i].bucket));
        }
        all_are_counted(front, keys);
        one_more_counts(ring, keys);
        assert(keys.contains(ring[ring.len() - 1].bucket));
    } else {
        none_are_counted(ring, keys);
    }
}

proof fn none_are_counted(ring: Seq<EntryModel>, keys: Seq<KeyModel>)
    requires
        ring.len() == 0,
    ensures
        counted(ring, keys) == 0,
    decreases keys.len(),
{
    if keys.len() > 0 {
        none_are_counted(ring, keys.drop_last());
    }
}

/// The buckets of the rows.
pub open spec fn row_keys(ring: Seq<EntryModel>) -> Seq<KeyModel> {
    rows_of(ring).map_values(|row: (KeyModel, StackStats)| row.0)
}

/// The rows together count every span of the window once, no two of them
/// have the same bucket, and no bucket is empty.
pub proof fn rows_count_every_span(ring: Seq<EntryModel>)
    ensures
        counted(ring, row_keys(ring)) == ring.len(),
        row_keys(ring).no_duplicates(),
        forall|i: int|
            0 <= i < rows_of(ring).len() ==> occupied(ring, (#[trigger] rows_of(ring)[i]).0),
{
    let lt = key_order::<BucketKey>();
    let all = ring.map_values(|e: EntryModel| e.bucket);
    let set = buckets_of(ring);
    key_order_is_strict::<BucketKey>();
    vstd::seq_lib::seq_to_set_is_finite(all);
    finite_sets_are_listed(lt, set);
    let keys = listing(lt, set);
    assert(row_keys(ring) =~= keys);
    assert forall|i: int| 0 <= i < ring.len() implies keys.contains(
        (#[trigger] ring[i]).bucket,
    ) by {
        assert(all[i] == ring[i].bucket);
        assert(set.contains(ring[i].bucket));
        assert(keys.to_set().contains(ring[i].bucket));
    }
    all_are_counted(ring, keys);
    assert forall|i: int| 0 <= i < rows_of(ring).len() implies occupied(
        ring,
        (#[trigger] rows_of(ring)[i]).0,
    ) by {
        assert(keys.to_set().contains(keys[i]));
        let j = choose|j: int| 0 <= j < all.len() && all[j] == keys[i];
        assert(ring[j].bucket == keys[i]);
    }
}

/// No span is longer by itself than in all.
proof fn selves_within_totals(ring: Seq<EntryModel>, key: KeyModel)
    ensures
        sum_of(shares_in(ring, key, true)) <= sum_of(shares_in(ring, key, false)),
    decreases ring.len(),
{
    if ring.len() > 0 {
        selves_within_totals(ring.drop_last(), key);
        if ring.last().bucket == key {
            sum_of_insert(shares_in(ring.drop_last(), key, true), ring.last().share(true));
            sum_of_insert(shares_in(ring.drop_last(), key, false), ring.last().share(false));
        }
    }
}

/// A row counts something, and its times are in order: the mean lies between
/// the least and the greatest, for total and for self times, and the self
/// times do not sum up to more than the total times.
pub open spec fn in_good_order(row: StackStats) -> bool {
    &&& row.count > 0
    &&& row.total_min_ns <= average(row.total_sum_ns, row.count) <= row.total_max_ns
    &&& row.self_min_ns <= average(row.self_sum_ns, row.count) <= row.self_max_ns
    &&& row.self_sum_ns <= row.total_sum_ns
}

proof fn averages_fit(m: Multiset<u64>)
    requires
        0 < m.len() <= u64::MAX,
    ensures
        least(m) <= average(sum_of(m) as u128, m.len() as u64) <= greatest(m),
        sum_of(m) <= u128::MAX,
{
    mean_lies_between(m);
    sum_of_bound(m);
    let n = m.len();
    assert(n * 0xffff_ffff_ffff_ffff <= 0xffff_ffff_ffff_ffff * 0xffff_ffff_ffff_ffff)
        by (nonlinear_arith)
        requires
            n <= 0xffff_ffff_ffff_ffff,
    ;
    let sum = sum_of(m) as u128;
    assert(sum / (n as u128) == sum_of(m) / n);
}

/// Whatever the window holds, its rows stand in strictly ascending order and
/// each of them is in order.
pub proof fn rows_are_in_order(ring: Seq<EntryModel>)
    requires
        ring.len() <= u64::MAX,
    ensures
        forall|i: int|
            0 <= i < rows_of(ring).len() ==> in_good_order((#[trigger] rows_of(ring)[i]).1),
        forall|i: int, j: int|
            0 <= i < j < rows_of(ring).len() ==> row_less(
                (#[trigger] rows_of(ring)[i]).0,
                (#[trigger] rows_of(ring)[j]).0,
            ),
{
    let lt = key_order::<BucketKey>();
    let set = buckets_of(ring);
    key_order_is_strict::<BucketKey>();
    vstd::seq_lib::seq_to_set_is_finite(ring.map_values(|e: EntryModel| e.bucket));
    finite_sets_are_listed(lt, set);
    rows_count_every_span(ring);
    assert forall|i: int| 0 <= i < rows_of(ring).len() implies in_good_order(
        (#[trigger] rows_of(ring)[i]).1,
    ) by {
        let key = rows_of(ring)[i].0;
        shares_count(ring, key);
        averages_fit(shares_in(ring, key, false));
        averages_fit(shares_in(ring, key, true));
        selves_within_totals(ring, key);
    }
}

} // verus!
