//! What becomes of a window when it is bucketed anew, and when its spans
//! arrive once more because it is made from what was written down.

use vstd::prelude::*;

use crate::aggregate::laws::{
    bounded, bucket_follows, consistent, count_finds, fresh, parent_came, parents_first, same_spans,
    same_spans_count, settled_is_consistent, spans_count, spans_time, sum_follows, uses_of,
    window_count, window_time,
};
use crate::aggregate::ring::{
    admitted, all_absorbed, all_parked, bucket_for, empty_window, has_id, index_of_id, joined,
    joined_keeps, names_id, newest_stands, pending_cap, rebucketed, rebucketed_keeps_spans,
    resplit, restored, settled, settled_keeps_settings, snapshot_of, unique_ids, waiting_for,
    with_room_keeps, AggModel, EntryModel,
};
use crate::protocol::{SpanModel, Text};

verus! {

/// The spans of a window.
pub open spec fn spans_of(ring: Seq<EntryModel>) -> Seq<SpanModel> {
    ring.map_values(|e: EntryModel| e.span)
}

/// Span `i` is a root, or its parent stands before it.
pub open spec fn parent_before(spans: Seq<SpanModel>, i: int) -> bool {
    match spans[i].parent_id {
        None => true,
        Some(p) => names_id(spans.take(i), p),
    }
}

/// No parent has left the window before its children.
pub open spec fn families_whole(spans: Seq<SpanModel>) -> bool {
    forall|i: int| 0 <= i < spans.len() ==> #[trigger] parent_before(spans, i)
}

pub open spec fn all_closed(spans: Seq<SpanModel>) -> bool {
    forall|i: int| 0 <= i < spans.len() ==> (#[trigger] spans[i]).closed_at_ns is Some
}

/// Windows and their spans agree on counts and times.
pub proof fn counts_agree(ring: Seq<EntryModel>, id: u64)
    ensures
        window_count(ring, id) == spans_count(spans_of(ring), id),
        window_time(ring) == spans_time(spans_of(ring)),
    decreases ring.len(),
{
    if ring.len() > 0 {
        counts_agree(ring.drop_last(), id);
        assert(spans_of(ring).drop_last() =~= spans_of(ring.drop_last()));
        assert(spans_of(ring).last() == ring.last().span);
    }
}

/// An id is in the window where one of its spans has it.
pub proof fn named_is_there(ring: Seq<EntryModel>, id: u64)
    ensures
        has_id(ring, id) <==> names_id(spans_of(ring), id),
{
    if has_id(ring, id) {
        let i = choose|i: int| 0 <= i < ring.len() && (#[trigger] ring[i]).span.id == id;
        assert(spans_of(ring)[i].id == id);
    }
    if names_id(spans_of(ring), id) {
        let i = choose|i: int|
            0 <= i < spans_of(ring).len() && (#[trigger] spans_of(ring)[i]).id == id;
        assert(ring[i].span.id == id);
    }
}

proof fn named_counts(spans: Seq<SpanModel>, id: u64)
    requires
        names_id(spans, id),
    ensures
        spans_count(spans, id) > 0,
    decreases spans.len(),
{
    let i = choose|i: int| 0 <= i < spans.len() && (#[trigger] spans[i]).id == id;
    if i < spans.len() - 1 {
        assert(spans.drop_last()[i].id == id);
        named_counts(spans.drop_last(), id);
    }
}

/// A span whose parent is there joins a window with room, and nothing else
/// happens.
proof fn one_joins(m: AggModel, span: SpanModel)
    requires
        m.pending.len() == 0,
        m.ring.len() < m.budget,
        consistent(m.ring, m.split_keys),
        fresh(m, seq![span]),
        bucket_for(m, span) is Some,
    ensures
        ({
            let after = settled(m, seq![span]).0;
            &&& after.pending.len() == 0
            &&& spans_of(after.ring) == spans_of(m.ring).push(span)
            &&& consistent(after.ring, m.split_keys)
            &&& fresh(after, Seq::empty())
            &&& after.split_keys == m.split_keys
            &&& after.budget == m.budget
        }),
{
    let todo = seq![span];
    let bucket = bucket_for(m, span)->0;
    settled_is_consistent(m, todo);
    settled_keeps_settings(m, todo);
    reveal(Seq::filter);
    assert(waiting_for(m.pending, span.id) =~= Seq::empty());
    assert(todo.skip(1) =~= Seq::empty());
    let next = admitted(m, span, bucket);
    let none = waiting_for(m.pending, span.id) + todo.skip(1);
    assert(none.len() == 0);
    assert(settled(next, none) == (next, Seq::<u64>::empty()));
    assert(settled(m, todo).0 == next);
    assert(spans_count(todo, span.id) == 1) by {
        reveal_with_fuel(spans_count, 2);
        assert(todo.drop_last() =~= Seq::empty());
    }
    assert(uses_of(m, todo, span.id) <= 1);
    count_finds(m.ring, span.id);
    assert(!has_id(m.ring, span.id));
    joined_keeps(m.ring, span, bucket, m.budget);
    with_room_keeps(m.ring, m.budget);
    assert(spans_of(joined(m.ring, span, bucket, m.budget)) =~= spans_of(m.ring).push(span));
}

/// The spans of a window arrive again, as often as there are: all are there
/// afterwards, in the same order.
proof fn all_join(keys: Set<Text>, budget: nat, spans: Seq<SpanModel>)
    requires
        families_whole(spans),
        all_closed(spans),
        spans.len() <= budget,
        forall|id: u64| #[trigger] spans_count(spans, id) <= 1,
        spans_time(spans) <= u64::MAX,
    ensures
        ({
            let after = all_absorbed(empty_window(keys, budget), spans);
            &&& after.pending.len() == 0
            &&& spans_of(after.ring) == spans
            &&& consistent(after.ring, keys)
            &&& fresh(after, Seq::empty())
            &&& after.split_keys == keys
            &&& after.budget == budget
        }),
    decreases spans.len(),
{
    let empty = empty_window(keys, budget);
    if spans.len() == 0 {
        assert(spans_of(empty.ring) =~= spans);
    } else {
        let front = spans.drop_last();
        let span = spans.last();
        assert forall|i: int| 0 <= i < front.len() implies #[trigger] parent_before(front, i) by {
            assert(parent_before(spans, i));
            assert(front.take(i) =~= spans.take(i));
        }
        assert forall|id: u64| #[trigger] spans_count(front, id) <= 1 by {
            assert(spans_count(spans, id) <= 1);
        }
        assert forall|i: int| 0 <= i < front.len() implies (#[trigger] front[i]).closed_at_ns
            is Some by {
            assert(spans[i].closed_at_ns is Some);
        }
        assert(spans[spans.len() - 1].closed_at_ns is Some);
        all_join(keys, budget, front);
        let m = all_absorbed(empty, front);
        let todo = seq![span];
        assert(todo.drop_last() =~= Seq::empty());
        counts_agree(m.ring, span.id);
        assert forall|id: u64| #[trigger] uses_of(m, todo, id) <= 1 by {
            counts_agree(m.ring, id);
            assert(m.pending =~= Seq::empty());
            assert(spans_count(spans, id) <= 1);
        }
        assert forall|i: int| 0 <= i < m.ring.len() implies #[trigger] parent_came(m, todo, i) by {
            assert(spans_of(m.ring)[i] == front[i]);
            assert(m.pending =~= Seq::empty());
            if let Some(p) = m.ring[i].span.parent_id {
                assert(parent_before(front, i));
                let j = choose|j: int|
                    0 <= j < front.take(i).len() && (#[trigger] front.take(i)[j]).id == p;
                assert(front[j].id == p);
                named_counts(front, p);
                assert(spans_count(spans, p) <= 1);
            }
        }
        assert(parent_before(spans, spans.len() - 1));
        assert(spans.take(spans.len() - 1) =~= front);
        if let Some(p) = span.parent_id {
            named_is_there(m.ring, p);
        }
        one_joins(m, span);
        assert(front.push(span) =~= spans);
    }
}

/// The bucket of span `i` follows from the spans alone.
proof fn same_bucket(a: Seq<EntryModel>, b: Seq<EntryModel>, keys: Set<Text>, i: int)
    requires
        same_spans(a, b),
        consistent(a, keys),
        consistent(b, keys),
        families_whole(spans_of(a)),
        0 <= i < a.len(),
    ensures
        a[i].bucket == b[i].bucket,
    decreases i,
{
    assert(a[i].span == b[i].span);
    assert(bucket_follows(a, keys, i));
    assert(bucket_follows(b, keys, i));
    if let Some(p) = a[i].span.parent_id {
        let before = spans_of(a).take(i);
        assert(parent_before(spans_of(a), i));
        let j = choose|j: int| 0 <= j < before.len() && (#[trigger] before[j]).id == p;
        assert(a[j].span == b[j].span);
        assert(a[j].span.id == p);
        let x = index_of_id(a, p);
        let y = index_of_id(b, p);
        assert(b[j].span.id == p);
        newest_stands(a, p);
        newest_stands(b, p);
        assert(x == j) by {
            if x < j {
                assert(a[x].span.id != a[j].span.id);
            } else if j < x {
                assert(a[j].span.id != a[x].span.id);
            }
        }
        assert(y == j) by {
            if y < j {
                assert(b[y].span.id != b[j].span.id);
            } else if j < y {
                assert(b[j].span.id != b[y].span.id);
            }
        }
        same_bucket(a, b, keys, j);
    }
}

/// Where no parent has left, the statistics follow from the spans alone.
pub proof fn spans_tell_the_window(a: Seq<EntryModel>, b: Seq<EntryModel>, keys: Set<Text>)
    requires
        spans_of(a) == spans_of(b),
        consistent(a, keys),
        consistent(b, keys),
        families_whole(spans_of(a)),
    ensures
        a == b,
{
    assert(a.len() == spans_of(a).len() && b.len() == spans_of(b).len());
    assert forall|i: int| 0 <= i < a.len() implies (#[trigger] a[i]).span == (
    #[trigger] b[i]).span by {
        assert(spans_of(a)[i] == a[i].span);
        assert(spans_of(b)[i] == b[i].span);
    }
    assert forall|i: int| 0 <= i < a.len() implies #[trigger] a[i] == b[i] by {
        assert(a[i].span == b[i].span);
        same_bucket(a, b, keys, i);
        assert(sum_follows(a, i));
        assert(sum_follows(b, i));
        same_spans_count(a, b, a[i].span.id);
    }
    assert(a =~= b);
}

/// The window holds what it may, says of its spans what they say, and no
/// parent has left it before its children.
pub open spec fn whole(m: AggModel) -> bool {
    &&& bounded(m)
    &&& consistent(m.ring, m.split_keys)
    &&& fresh(m, Seq::empty())
    &&& families_whole(spans_of(m.ring))
}

proof fn whole_puts_parents_first(ring: Seq<EntryModel>)
    requires
        unique_ids(ring),
        families_whole(spans_of(ring)),
    ensures
        parents_first(ring),
{
    assert forall|i: int, j: int|
        0 <= i < ring.len() && 0 <= j < ring.len() && (#[trigger] ring[i]).span.parent_id == Some(
            (#[trigger] ring[j]).span.id,
        ) implies j < i by {
        let p = ring[j].span.id;
        let before = spans_of(ring).take(i);
        assert(parent_before(spans_of(ring), i));
        let k = choose|k: int| 0 <= k < before.len() && (#[trigger] before[k]).id == p;
        assert(ring[k].span.id == p);
        if k < j {
            assert(ring[k].span.id != ring[j].span.id);
        }
    }
}

/// New buckets follow from those of the parents.
proof fn rebucketed_follows(ring: Seq<EntryModel>, keys: Set<Text>, i: int)
    requires
        unique_ids(ring),
        parents_first(ring),
        0 <= i < ring.len(),
    ensures
        bucket_follows(rebucketed(ring, keys), keys, i),
    decreases ring.len(),
{
    let after = rebucketed(ring, keys);
    let front = ring.drop_last();
    let before = rebucketed(front, keys);
    rebucketed_keeps_spans(ring, keys);
    rebucketed_keeps_spans(front, keys);
    assert forall|x: int, y: int| 0 <= x < y < after.len() implies (#[trigger] after[x]).span.id
        != (#[trigger] after[y]).span.id by {
        assert(ring[x].span.id != ring[y].span.id);
    }
    if let Some(p) = ring[i].span.parent_id {
        if has_id(after, p) {
            newest_stands(after, p);
            let j = index_of_id(after, p);
            assert(ring[i].span.parent_id == Some(ring[j].span.id));
            assert(j < i);
            assert(before[j] == after[j]);
            assert(has_id(before, p));
            newest_stands(before, p);
            let k = index_of_id(before, p);
            assert(after[k] == before[k]);
            if k < j {
                assert(after[k].span.id != after[j].span.id);
            } else if j < k {
                assert(after[j].span.id != after[k].span.id);
            }
        }
    }
    if i < front.len() {
        assert forall|x: int, y: int| 0 <= x < y < front.len() implies (#[trigger] front[x]).span.id
            != (#[trigger] front[y]).span.id by {
            assert(ring[x].span.id != ring[y].span.id);
        }
        assert forall|x: int, y: int|
            0 <= x < front.len() && 0 <= y < front.len() && (#[trigger] front[x]).span.parent_id
                == Some((#[trigger] front[y]).span.id) implies y < x by {
            assert(ring[x].span.parent_id == Some(ring[y].span.id));
        }
        rebucketed_follows(front, keys, i);
        assert(after[i] == before[i]);
    } else {
        assert(ring.last() == ring[i]);
    }
}

/// Other split keys lose no span: all stay in their places, with their times
/// and those of their children, and the waiting spans wait on. What the window
/// says of its spans still is what they say.
pub proof fn splitting_loses_nothing(m: AggModel, keys: Set<Text>)
    ensures
        resplit(m, keys).ring.len() == m.ring.len(),
        spans_of(resplit(m, keys).ring) == spans_of(m.ring),
        forall|i: int|
            0 <= i < m.ring.len() ==> (#[trigger] resplit(m, keys).ring[i]).self_ns()
                == m.ring[i].self_ns(),
        resplit(m, keys).pending == m.pending,
        resplit(m, keys).budget == m.budget,
        resplit(m, keys).split_keys == keys,
        parents_first(m.ring) ==> parents_first(resplit(m, keys).ring),
        consistent(m.ring, m.split_keys) && parents_first(m.ring) ==> consistent(
            resplit(m, keys).ring,
            keys,
        ),
        fresh(m, Seq::empty()) ==> fresh(resplit(m, keys), Seq::empty()),
{
    let n = resplit(m, keys);
    let (a, b) = (m.ring, n.ring);
    rebucketed_keeps_spans(a, keys);
    assert(spans_of(b) =~= spans_of(a));
    assert(same_spans(a, b));
    if parents_first(a) {
        assert forall|i: int, j: int|
            0 <= i < b.len() && 0 <= j < b.len() && (#[trigger] b[i]).span.parent_id == Some(
                (#[trigger] b[j]).span.id,
            ) implies j < i by {
            assert(a[i].span.parent_id == Some(a[j].span.id));
        }
    }
    if consistent(a, m.split_keys) && parents_first(a) && keys != m.split_keys {
        assert forall|i: int| 0 <= i < b.len() implies #[trigger] sum_follows(b, i) by {
            assert(sum_follows(a, i));
            same_spans_count(a, b, a[i].span.id);
        }
        assert forall|i: int| 0 <= i < b.len() implies #[trigger] bucket_follows(b, keys, i) by {
            rebucketed_follows(a, keys, i);
        }
        assert forall|x: int, y: int| 0 <= x < y < b.len() implies (#[trigger] b[x]).span.id != (
        #[trigger] b[y]).span.id by {
            assert(a[x].span.id != a[y].span.id);
        }
    }
    if fresh(m, Seq::empty()) {
        assert forall|id: u64| #[trigger] uses_of(n, Seq::empty(), id) <= 1 by {
            same_spans_count(a, b, id);
            assert(uses_of(m, Seq::empty(), id) <= 1);
        }
        same_spans_count(a, b, 0);
        assert forall|i: int| 0 <= i < b.len() implies #[trigger] parent_came(
            n,
            Seq::empty(),
            i,
        ) by {
            assert(parent_came(m, Seq::empty(), i));
        }
    }
}

/// The former split keys bring the window back as it was, as long as no parent
/// has left it before its children.
pub proof fn former_keys_bring_back_the_window(m: AggModel, keys: Set<Text>)
    requires
        whole(m),
    ensures
        whole(resplit(m, keys)),
        resplit(resplit(m, keys), m.split_keys) == m,
{
    let n = resplit(m, keys);
    whole_puts_parents_first(m.ring);
    splitting_loses_nothing(m, keys);
    splitting_loses_nothing(n, m.split_keys);
    spans_tell_the_window(resplit(n, m.split_keys).ring, m.ring, m.split_keys);
}

proof fn whole_joins(m: AggModel)
    requires
        whole(m),
        all_closed(spans_of(m.ring)),
    ensures
        ({
            let after = all_absorbed(empty_window(m.split_keys, m.budget), spans_of(m.ring));
            &&& after.pending.len() == 0
            &&& spans_of(after.ring) == spans_of(m.ring)
            &&& consistent(after.ring, m.split_keys)
            &&& after.split_keys == m.split_keys
            &&& after.budget == m.budget
        }),
{
    let spans = spans_of(m.ring);
    assert forall|id: u64| #[trigger] spans_count(spans, id) <= 1 by {
        counts_agree(m.ring, id);
        assert(uses_of(m, Seq::empty(), id) <= 1);
    }
    counts_agree(m.ring, 0);
    all_join(m.split_keys, m.budget, spans);
}

proof fn all_wait_again(m: AggModel, spans: Seq<SpanModel>)
    requires
        m.pending.len() == 0,
        spans.len() <= pending_cap(m.budget),
    ensures
        all_parked(m, spans) == (AggModel { pending: spans, ..m }),
    decreases spans.len(),
{
    if spans.len() == 0 {
        assert(m.pending =~= spans);
    } else {
        all_wait_again(m, spans.drop_last());
        assert(spans.drop_last().push(spans.last()) =~= spans);
    }
}

/// What was written down of a window gives it back as it was, with all its
/// statistics, as long as no parent has left it before its children.
pub proof fn snapshots_bring_back_the_window(m: AggModel)
    requires
        whole(m),
        all_closed(spans_of(m.ring)),
    ensures
        restored(snapshot_of(m)) == m,
{
    let empty = empty_window(m.split_keys, m.budget);
    whole_joins(m);
    let back = all_absorbed(empty, spans_of(m.ring));
    spans_tell_the_window(back.ring, m.ring, m.split_keys);
    all_wait_again(back, m.pending);
}

} // verus!
