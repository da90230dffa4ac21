//! What a window shows does not depend on the order in which its spans arrive.

use vstd::multiset::Multiset;
use vstd::prelude::*;

use crate::aggregate::laws::{
    admitted_is_fresh, bucket_follows, children_time, consistent, count_finds, count_remove, fresh,
    parent_came, parked_is_fresh, place_is_only, settled_is_consistent, spans_count, spans_time,
    sum_follows, uses_of, window_count, window_time,
};
use crate::aggregate::replay::{
    all_closed, counts_agree, families_whole, named_is_there, parent_before, spans_of,
};
use crate::aggregate::ring::{
    admitted, all_absorbed, bucket_for, buckets_of, empty_window, has_id, joined, joined_keeps,
    names_id, not_waiting_for, parked, parked_adds_at_most_one, pending_cap, rows_of, settled,
    settled_keeps_settings, shares_after_remove, shares_in, span_total, waiting_for,
    waiting_is_partition, AggModel, EntryModel,
};
use crate::aggregate::types::KeyModel;
use crate::protocol::{SpanModel, Text};

verus! {

/// Every waiting span waits for a parent that is not in the window.
pub open spec fn only_orphans_wait(m: AggModel) -> bool {
    forall|i: int|
        0 <= i < m.pending.len() ==> match (#[trigger] m.pending[i]).parent_id {
            Some(p) => !has_id(m.ring, p),
            None => false,
        }
}

/// The spans of the window and those that wait.
pub open spec fn held(m: AggModel) -> Multiset<SpanModel> {
    spans_of(m.ring).to_multiset().add(m.pending.to_multiset())
}

/// Every span either waits for `id` or does not.
proof fn waiting_parts(pending: Seq<SpanModel>, id: u64)
    ensures
        waiting_for(pending, id).to_multiset().add(not_waiting_for(pending, id).to_multiset())
            == pending.to_multiset(),
    decreases pending.len(),
{
    reveal(Seq::filter);
    let (w, n) = (waiting_for(pending, id), not_waiting_for(pending, id));
    if pending.len() == 0 {
        assert(w =~= pending && n =~= pending);
        pending.to_multiset_ensures();
        assert(w.to_multiset().add(n.to_multiset()) =~= pending.to_multiset());
    } else {
        let front = pending.drop_last();
        let x = pending.last();
        waiting_parts(front, id);
        let (v, o) = (waiting_for(front, id), not_waiting_for(front, id));
        assert(pending =~= front.push(x));
        front.to_multiset_ensures();
        v.to_multiset_ensures();
        o.to_multiset_ensures();
        if x.parent_id == Some(id) {
            assert(w =~= v.push(x) && n =~= o);
        } else {
            assert(w =~= v && n =~= o.push(x));
        }
        assert(w.to_multiset().add(n.to_multiset()) =~= pending.to_multiset());
    }
}

/// A span that joins a window with room stands behind the others.
proof fn joins_behind(ring: Seq<EntryModel>, span: SpanModel, bucket: KeyModel, budget: nat)
    requires
        ring.len() < budget,
    ensures
        spans_of(joined(ring, span, bucket, budget)) == spans_of(ring).push(span),
{
    joined_keeps(ring, span, bucket, budget);
    assert(spans_of(joined(ring, span, bucket, budget)) =~= spans_of(ring).push(span));
}

/// A span that joins a window with room is held beside the others.
#[verifier::rlimit(30)]
proof fn admitted_holds_all(m: AggModel, todo: Seq<SpanModel>, bucket: KeyModel)
    requires
        m.ring.len() < m.budget,
        fresh(m, todo),
        consistent(m.ring, m.split_keys),
        families_whole(spans_of(m.ring)),
        only_orphans_wait(m),
        todo.len() > 0,
        bucket_for(m, todo[0]) == Some(bucket),
    ensures
        ({
            let next = admitted(m, todo[0], bucket);
            let more = waiting_for(m.pending, todo[0].id) + todo.skip(1);
            &&& spans_of(next.ring) == spans_of(m.ring).push(todo[0])
            &&& families_whole(spans_of(next.ring))
            &&& only_orphans_wait(next)
            &&& held(next).add(more.to_multiset()) == held(m).add(todo.to_multiset())
        }),
{
    let span = todo[0];
    let rest = todo.skip(1);
    let next = admitted(m, span, bucket);
    let w = waiting_for(m.pending, span.id);
    assert(uses_of(m, todo, span.id) <= 1);
    first_counts(todo);
    count_finds(m.ring, span.id);
    assert(!has_id(m.ring, span.id));
    let (before, after) = (spans_of(m.ring), spans_of(next.ring));
    joins_behind(m.ring, span, bucket, m.budget);
    assert forall|i: int| 0 <= i < after.len() implies #[trigger] parent_before(after, i) by {
        assert(after.take(i) =~= before.take(i));
        if i < before.len() {
            assert(parent_before(before, i));
        } else {
            assert(before.take(i) =~= before);
            if let Some(p) = span.parent_id {
                named_is_there(m.ring, p);
            }
        }
    }
    assert forall|i: int| 0 <= i < next.pending.len() implies match (
    #[trigger] next.pending[i]).parent_id {
        Some(p) => !has_id(next.ring, p),
        None => false,
    } by {
        let stays = |s: SpanModel| s.parent_id != Some(span.id);
        m.pending.lemma_filter_pred(stays, i);
        let x = next.pending[i];
        assert(m.pending.filter(stays).contains(x));
        m.pending.lemma_filter_contains_rev(stays, x);
        let j = choose|j: int| 0 <= j < m.pending.len() && m.pending[j] == x;
        assert(m.pending[j] == x);
        if let Some(p) = x.parent_id {
            named_is_there(m.ring, p);
            named_is_there(next.ring, p);
            if names_id(after, p) {
                let k = choose|k: int| 0 <= k < after.len() && (#[trigger] after[k]).id == p;
                if k < before.len() {
                    assert(before[k].id == p);
                }
            }
        }
    }
    waiting_parts(m.pending, span.id);
    vstd::seq_lib::lemma_multiset_commutative(w, rest);
    let one = seq![span];
    assert(todo =~= one + rest);
    vstd::seq_lib::lemma_multiset_commutative(one, rest);
    before.to_multiset_ensures();
    vstd::seq_lib::lemma_multiset_commutative(before, one);
    assert(before + one =~= before.push(span));
    assert(held(next).add((w + rest).to_multiset()) =~= held(m).add(todo.to_multiset()));
}

/// The first of some spans is among them.
proof fn first_counts(todo: Seq<SpanModel>)
    requires
        todo.len() > 0,
    ensures
        spans_count(todo, todo[0].id) > 0,
    decreases todo.len(),
{
    if todo.len() > 1 {
        assert(todo.drop_last()[0] == todo[0]);
        first_counts(todo.drop_last());
    }
}

/// As long as there is room for all, taking spans in loses none, and none
/// waits longer than it must.
proof fn settled_holds_all(m: AggModel, todo: Seq<SpanModel>)
    requires
        m.budget > 0,
        m.ring.len() + m.pending.len() + todo.len() <= pending_cap(m.budget),
        fresh(m, todo),
        consistent(m.ring, m.split_keys),
        families_whole(spans_of(m.ring)),
        only_orphans_wait(m),
    ensures
        held(settled(m, todo).0) == held(m).add(todo.to_multiset()),
        families_whole(spans_of(settled(m, todo).0.ring)),
        only_orphans_wait(settled(m, todo).0),
    decreases m.pending.len() + todo.len(), todo.len(),
{
    if todo.len() == 0 {
        todo.to_multiset_ensures();
        assert(held(m).add(todo.to_multiset()) =~= held(m));
    } else {
        let span = todo[0];
        let rest = todo.skip(1);
        match bucket_for(m, span) {
            None => {
                parked_adds_at_most_one(m, span);
                parked_is_fresh(m, todo);
                let next = parked(m, span);
                assert(next.pending == m.pending.push(span));
                assert forall|i: int| 0 <= i < next.pending.len() implies match (
                #[trigger] next.pending[i]).parent_id {
                    Some(p) => !has_id(next.ring, p),
                    None => false,
                } by {
                    if i < m.pending.len() {
                        assert(next.pending[i] == m.pending[i]);
                    }
                }
                settled_holds_all(next, rest);
                m.pending.to_multiset_ensures();
                let one = seq![span];
                assert(todo =~= one + rest);
                vstd::seq_lib::lemma_multiset_commutative(one, rest);
                vstd::seq_lib::lemma_multiset_commutative(m.pending, one);
                assert(m.pending + one =~= m.pending.push(span));
                assert(held(next).add(rest.to_multiset()) =~= held(m).add(todo.to_multiset()));
            },
            Some(bucket) => {
                waiting_is_partition(m.pending, span.id);
                admitted_is_fresh(m, todo, bucket);
                admitted_holds_all(m, todo, bucket);
                let next = admitted(m, span, bucket);
                let more = waiting_for(m.pending, span.id) + rest;
                assert(next.ring.len() == spans_of(next.ring).len());
                assert(m.ring.len() == spans_of(m.ring).len());
                settled_holds_all(next, more);
            },
        }
    }
}

/// What one of some spans contributes to counts and times.
proof fn spans_removed(spans: Seq<SpanModel>, i: int, id: u64)
    requires
        0 <= i < spans.len(),
    ensures
        spans_count(spans, id) == spans_count(spans.remove(i), id) + if spans[i].id == id {
            1nat
        } else {
            0
        },
        spans_time(spans) == spans_time(spans.remove(i)) + span_total(
            spans[i],
        ),
    decreases spans.len(),
{
    if i == spans.len() - 1 {
        assert(spans.remove(i) =~= spans.drop_last());
    } else {
        let front = spans.drop_last();
        spans_removed(front, i, id);
        assert(spans.remove(i).drop_last() =~= front.remove(i));
        assert(spans.remove(i).last() == spans.last());
    }
}

/// Counts and times do not depend on the order.
proof fn same_counts(a: Seq<SpanModel>, b: Seq<SpanModel>, id: u64)
    requires
        a.to_multiset() == b.to_multiset(),
    ensures
        spans_count(a, id) == spans_count(b, id),
        spans_time(a) == spans_time(b),
        a.len() == b.len(),
    decreases a.len(),
{
    a.to_multiset_ensures();
    b.to_multiset_ensures();
    if a.len() > 0 {
        let x = a.last();
        assert(a[a.len() - 1] == x);
        assert(a.contains(x));
        assert(b.to_multiset().count(x) > 0);
        assert(b.contains(x));
        let j = choose|j: int| 0 <= j < b.len() && b[j] == x;
        assert(a.remove(a.len() - 1) =~= a.drop_last());
        assert(a.drop_last().to_multiset() =~= b.remove(j).to_multiset());
        same_counts(a.drop_last(), b.remove(j), id);
        spans_removed(b, j, id);
    }
}

/// Counts and times of two rows of spans add up.
proof fn counts_add_up(a: Seq<SpanModel>, b: Seq<SpanModel>, id: u64)
    ensures
        spans_count(a + b, id) == spans_count(a, id) + spans_count(b, id),
        spans_time(a + b) == spans_time(a) + spans_time(b),
    decreases b.len(),
{
    if b.len() == 0 {
        assert(a + b =~= a);
    } else {
        counts_add_up(a, b.drop_last(), id);
        assert((a + b).drop_last() =~= a + b.drop_last());
        assert((a + b).last() == b.last());
    }
}

/// What is held has the counts and times of the spans that arrived.
proof fn held_counts(m: AggModel, spans: Seq<SpanModel>, id: u64)
    requires
        held(m) == spans.to_multiset(),
    ensures
        window_count(m.ring, id) + spans_count(m.pending, id) == spans_count(spans, id),
        window_time(m.ring) + spans_time(m.pending) == spans_time(spans),
        m.ring.len() + m.pending.len() == spans.len(),
{
    let ring = spans_of(m.ring);
    vstd::seq_lib::lemma_multiset_commutative(ring, m.pending);
    same_counts(ring + m.pending, spans, id);
    counts_add_up(ring, m.pending, id);
    counts_agree(m.ring, id);
}

/// Spans that may arrive in any order: they are closed, no id comes twice, all
/// of them may wait at once, and their times can be counted.
pub open spec fn may_arrive(spans: Seq<SpanModel>, budget: nat) -> bool {
    &&& budget > 0
    &&& spans.len() <= pending_cap(budget)
    &&& all_closed(spans)
    &&& forall|id: u64| #[trigger] spans_count(spans, id) <= 1
    &&& spans_time(spans) <= u64::MAX
}

proof fn all_are_held(keys: Set<Text>, budget: nat, spans: Seq<SpanModel>)
    requires
        may_arrive(spans, budget),
    ensures
        ({
            let after = all_absorbed(empty_window(keys, budget), spans);
            &&& held(after) == spans.to_multiset()
            &&& families_whole(spans_of(after.ring))
            &&& only_orphans_wait(after)
            &&& consistent(after.ring, keys)
            &&& fresh(after, Seq::empty())
            &&& after.split_keys == keys
            &&& after.budget == budget
        }),
    decreases spans.len(),
{
    let empty = empty_window(keys, budget);
    if spans.len() == 0 {
        assert(spans_of(empty.ring) =~= spans);
        assert(empty.pending =~= spans);
        spans.to_multiset_ensures();
        assert(held(empty) =~= spans.to_multiset());
    } else {
        let front = spans.drop_last();
        let span = spans.last();
        let one = seq![span];
        assert forall|i: int| 0 <= i < front.len() implies (#[trigger] front[i]).closed_at_ns
            is Some by {
            assert(spans[i].closed_at_ns is Some);
        }
        assert(spans[spans.len() - 1].closed_at_ns is Some);
        assert forall|id: u64| #[trigger] spans_count(front, id) <= 1 by {
            assert(spans_count(spans, id) <= 1);
        }
        all_are_held(keys, budget, front);
        let m = all_absorbed(empty, front);
        assert(one.drop_last() =~= Seq::empty());
        assert forall|id: u64| #[trigger] uses_of(m, one, id) <= 1 by {
            held_counts(m, front, id);
            assert(spans_count(spans, id) <= 1);
            assert(spans_count(one.drop_last(), id) == 0);
        }
        held_counts(m, front, 0);
        assert(spans_time(one.drop_last()) == 0);
        assert forall|i: int| 0 <= i < m.ring.len() implies #[trigger] parent_came(m, one, i) by {
            if let Some(p) = m.ring[i].span.parent_id {
                let ring = spans_of(m.ring);
                assert(ring[i] == m.ring[i].span);
                assert(parent_before(ring, i));
                let k = choose|k: int|
                    0 <= k < ring.take(i).len() && (#[trigger] ring.take(i)[k]).id == p;
                assert(m.ring[k].span.id == p);
                assert(has_id(m.ring, p));
                count_finds(m.ring, p);
                assert(uses_of(m, one, p) <= 1);
            }
        }
        settled_holds_all(m, one);
        settled_is_consistent(m, one);
        settled_keeps_settings(m, one);
        vstd::seq_lib::lemma_multiset_commutative(front, one);
        assert(front + one =~= spans);
    }
}

/// Each span of a row in which parents come first is in the window, once all
/// of the row have arrived.
proof fn is_in_the_window(m: AggModel, row: Seq<SpanModel>, i: int)
    requires
        held(m) == row.to_multiset(),
        families_whole(row),
        only_orphans_wait(m),
        0 <= i < row.len(),
    ensures
        spans_of(m.ring).contains(row[i]),
    decreases i,
{
    let ring = spans_of(m.ring);
    row.to_multiset_ensures();
    ring.to_multiset_ensures();
    m.pending.to_multiset_ensures();
    assert(row.contains(row[i]));
    assert(held(m).count(row[i]) > 0);
    if !ring.contains(row[i]) {
        assert(m.pending.contains(row[i]));
        let k = choose|k: int| 0 <= k < m.pending.len() && m.pending[k] == row[i];
        assert(m.pending[k].parent_id is Some);
        let p = m.pending[k].parent_id->0;
        assert(parent_before(row, i));
        let j = choose|j: int| 0 <= j < row.take(i).len() && (#[trigger] row.take(i)[j]).id == p;
        is_in_the_window(m, row, j);
        let x = choose|x: int| 0 <= x < ring.len() && ring[x] == row[j];
        assert(m.ring[x].span.id == p);
        assert(has_id(m.ring, p));
    }
}

/// Once all have arrived, no span waits.
proof fn nothing_waits(m: AggModel, row: Seq<SpanModel>)
    requires
        held(m) == row.to_multiset(),
        families_whole(row),
        only_orphans_wait(m),
        fresh(m, Seq::empty()),
    ensures
        m.pending.len() == 0,
        spans_of(m.ring).to_multiset() == row.to_multiset(),
{
    let ring = spans_of(m.ring);
    m.pending.to_multiset_ensures();
    row.to_multiset_ensures();
    if m.pending.len() > 0 {
        let s = m.pending[0];
        assert(m.pending.contains(s));
        assert(held(m).count(s) > 0);
        assert(row.contains(s));
        let i = choose|i: int| 0 <= i < row.len() && row[i] == s;
        is_in_the_window(m, row, i);
        let x = choose|x: int| 0 <= x < ring.len() && ring[x] == s;
        assert(m.ring[x].span.id == s.id);
        assert(has_id(m.ring, s.id));
        count_finds(m.ring, s.id);
        first_counts(m.pending);
        assert(uses_of(m, Seq::empty(), s.id) <= 1);
    }
    assert(held(m) =~= ring.to_multiset());
}

/// A span of one window stands in the other, where both hold the same spans.
proof fn stands_in_both(a: Seq<EntryModel>, b: Seq<EntryModel>, i: int) -> (j: int)
    requires
        spans_of(a).to_multiset() == spans_of(b).to_multiset(),
        0 <= i < a.len(),
    ensures
        0 <= j < b.len(),
        b[j].span == a[i].span,
{
    let (x, y) = (spans_of(a), spans_of(b));
    x.to_multiset_ensures();
    y.to_multiset_ensures();
    assert(x[i] == a[i].span);
    assert(x.contains(x[i]));
    assert(y.to_multiset().count(x[i]) > 0);
    assert(y.contains(x[i]));
    choose|j: int| 0 <= j < y.len() && y[j] == x[i]
}

proof fn same_bucket_in_both(
    a: Seq<EntryModel>,
    b: Seq<EntryModel>,
    keys: Set<Text>,
    i: int,
    j: int,
)
    requires
        consistent(a, keys),
        consistent(b, keys),
        families_whole(spans_of(a)),
        spans_of(a).to_multiset() == spans_of(b).to_multiset(),
        0 <= i < a.len(),
        0 <= j < b.len(),
        a[i].span == b[j].span,
    ensures
        a[i].bucket == b[j].bucket,
    decreases i,
{
    assert(bucket_follows(a, keys, i));
    assert(bucket_follows(b, keys, j));
    if let Some(p) = a[i].span.parent_id {
        let before = spans_of(a).take(i);
        assert(parent_before(spans_of(a), i));
        let x = choose|x: int| 0 <= x < before.len() && (#[trigger] before[x]).id == p;
        assert(a[x].span.id == p);
        let y = stands_in_both(a, b, x);
        place_is_only(a, x);
        place_is_only(b, y);
        same_bucket_in_both(a, b, keys, x, y);
    }
}

proof fn same_children(a: Seq<EntryModel>, b: Seq<EntryModel>, id: u64)
    requires
        spans_of(a).to_multiset() == spans_of(b).to_multiset(),
    ensures
        children_time(a, id) == children_time(b, id),
    decreases a.len(),
{
    let (x, y) = (spans_of(a), spans_of(b));
    x.to_multiset_ensures();
    y.to_multiset_ensures();
    if a.len() > 0 {
        let last = a.len() - 1;
        let j = stands_in_both(a, b, last);
        assert(x.remove(last) =~= spans_of(a.drop_last()));
        assert(y.remove(j) =~= spans_of(b.remove(j)));
        assert(y[j] == x[last]);
        assert(spans_of(a.drop_last()).to_multiset() =~= spans_of(b.remove(j)).to_multiset());
        same_children(a.drop_last(), b.remove(j), id);
        count_remove(b, j, id);
    } else {
        assert(b.len() == y.len());
    }
}

proof fn is_there_as_well(a: Seq<EntryModel>, b: Seq<EntryModel>, keys: Set<Text>, i: int)
    requires
        consistent(a, keys),
        consistent(b, keys),
        families_whole(spans_of(a)),
        spans_of(a).to_multiset() == spans_of(b).to_multiset(),
        0 <= i < a.len(),
    ensures
        b.contains(a[i]),
{
    let j = stands_in_both(a, b, i);
    same_bucket_in_both(a, b, keys, i, j);
    same_children(a, b, a[i].span.id);
    assert(sum_follows(a, i) && sum_follows(b, j));
    assert(b[j] == a[i]);
}

/// Where each span stands once, the same spans with the same buckets and times
/// make the same multiset.
proof fn same_entries(a: Seq<EntryModel>, b: Seq<EntryModel>, keys: Set<Text>)
    requires
        consistent(a, keys),
        consistent(b, keys),
        families_whole(spans_of(a)),
        families_whole(spans_of(b)),
        spans_of(a).to_multiset() == spans_of(b).to_multiset(),
    ensures
        a.to_multiset() == b.to_multiset(),
{
    assert(a.no_duplicates());
    assert(b.no_duplicates());
    a.lemma_multiset_has_no_duplicates();
    b.lemma_multiset_has_no_duplicates();
    a.to_multiset_ensures();
    b.to_multiset_ensures();
    assert forall|e: EntryModel| a.to_multiset().count(e) == b.to_multiset().count(e) by {
        if a.contains(e) {
            let i = choose|i: int| 0 <= i < a.len() && a[i] == e;
            is_there_as_well(a, b, keys, i);
            assert(a.to_multiset().contains(e) && b.to_multiset().contains(e));
        } else if b.contains(e) {
            let i = choose|i: int| 0 <= i < b.len() && b[i] == e;
            is_there_as_well(b, a, keys, i);
        }
    }
    assert(a.to_multiset() =~= b.to_multiset());
}

proof fn same_shares(a: Seq<EntryModel>, b: Seq<EntryModel>, key: KeyModel, own: bool)
    requires
        a.to_multiset() == b.to_multiset(),
    ensures
        shares_in(a, key, own) == shares_in(b, key, own),
    decreases a.len(),
{
    a.to_multiset_ensures();
    b.to_multiset_ensures();
    if a.len() > 0 {
        let last = a.len() - 1;
        assert(a.contains(a[last]));
        assert(b.to_multiset().count(a[last]) > 0);
        assert(b.contains(a[last]));
        let j = choose|j: int| 0 <= j < b.len() && b[j] == a[last];
        assert(a.remove(last) =~= a.drop_last());
        assert(a.drop_last().to_multiset() =~= b.remove(j).to_multiset());
        same_shares(a.drop_last(), b.remove(j), key, own);
        shares_after_remove(b, j, key, own);
    }
}

/// The same entries in any order give the same rows.
proof fn same_rows(a: Seq<EntryModel>, b: Seq<EntryModel>)
    requires
        a.to_multiset() == b.to_multiset(),
    ensures
        rows_of(a) == rows_of(b),
{
    a.to_multiset_ensures();
    b.to_multiset_ensures();
    assert forall|key: KeyModel| buckets_of(a).contains(key) == buckets_of(b).contains(key) by {
        bucket_in_both(a, b, key);
        bucket_in_both(b, a, key);
    }
    assert(buckets_of(a) =~= buckets_of(b));
    assert(rows_of(a).len() == rows_of(b).len());
    assert forall|i: int| 0 <= i < rows_of(a).len() implies #[trigger] rows_of(a)[i]
        == rows_of(b)[i] by {
        let key = rows_of(a)[i].0;
        same_shares(a, b, key, false);
        same_shares(a, b, key, true);
    }
    assert(rows_of(a) =~= rows_of(b));
}

proof fn bucket_in_both(a: Seq<EntryModel>, b: Seq<EntryModel>, key: KeyModel)
    requires
        a.to_multiset() == b.to_multiset(),
    ensures
        buckets_of(a).contains(key) ==> buckets_of(b).contains(key),
{
    if buckets_of(a).contains(key) {
        let (x, y) = (a.map_values(|e: EntryModel| e.bucket), b.map_values(
            |e: EntryModel| e.bucket,
        ));
        let i = choose|i: int| 0 <= i < x.len() && x[i] == key;
        a.to_multiset_ensures();
        b.to_multiset_ensures();
        assert(a.contains(a[i]));
        assert(b.to_multiset().count(a[i]) > 0);
        assert(b.contains(a[i]));
        let j = choose|j: int| 0 <= j < b.len() && b[j] == a[i];
        assert(y[j] == key);
    }
}

/// Spans that belong together, each with its parent among them, may arrive in
/// any order: once all are there, the window holds each of them once, none
/// waits, what it says of them follows from them alone, and the rows are the
/// same. That no span is its own ancestor is said by `row`, the same spans
/// with each parent before its children.
pub proof fn order_of_arrival_is_indifferent(
    keys: Set<Text>,
    budget: nat,
    row: Seq<SpanModel>,
    first: Seq<SpanModel>,
    second: Seq<SpanModel>,
)
    requires
        may_arrive(first, budget),
        families_whole(row),
        first.to_multiset() == row.to_multiset(),
        second.to_multiset() == row.to_multiset(),
    ensures
        ({
            let a = all_absorbed(empty_window(keys, budget), first);
            let b = all_absorbed(empty_window(keys, budget), second);
            &&& rows_of(a.ring) == rows_of(b.ring)
            &&& a.pending.len() == 0 && b.pending.len() == 0
            &&& spans_of(a.ring).to_multiset() == row.to_multiset()
            &&& spans_of(b.ring).to_multiset() == row.to_multiset()
            &&& consistent(a.ring, keys) && families_whole(spans_of(a.ring))
            &&& consistent(b.ring, keys) && families_whole(spans_of(b.ring))
        }),
{
    first.to_multiset_ensures();
    second.to_multiset_ensures();
    same_counts(first, second, 0);
    assert forall|id: u64| #[trigger] spans_count(second, id) <= 1 by {
        same_counts(first, second, id);
        assert(spans_count(first, id) <= 1);
    }
    assert forall|i: int| 0 <= i < second.len() implies (#[trigger] second[i]).closed_at_ns
        is Some by {
        assert(second.contains(second[i]));
        assert(first.to_multiset().count(second[i]) > 0);
        assert(first.contains(second[i]));
        let j = choose|j: int| 0 <= j < first.len() && first[j] == second[i];
        assert(first[j].closed_at_ns is Some);
    }
    all_are_held(keys, budget, first);
    all_are_held(keys, budget, second);
    let a = all_absorbed(empty_window(keys, budget), first);
    let b = all_absorbed(empty_window(keys, budget), second);
    nothing_waits(a, row);
    nothing_waits(b, row);
    same_entries(a.ring, b.ring, keys);
    same_rows(a.ring, b.ring);
}

} // verus!
