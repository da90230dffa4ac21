//! The mathematical model of the rolling window: which spans it holds, which
//! wait for their parent, and how both change when a span arrives.

use vstd::multiset::Multiset;
use vstd::prelude::*;

use crate::aggregate::types::{stats_of, BucketKey, KeyModel, StackStats};
use crate::order::{key_order, Key};
use crate::protocol::{first_named, SpanModel, Text};
use crate::sorted::listing;

verus! {

/// `a - b`, but not below zero.
pub open spec fn sat_sub(a: u64, b: u64) -> u64 {
    if a >= b {
        (a - b) as u64
    } else {
        0
    }
}

/// `a + b`, but not above the greatest number.
pub open spec fn sat_add(a: u64, b: u64) -> u64 {
    if a + b <= u64::MAX {
        (a + b) as u64
    } else {
        u64::MAX
    }
}

/// How long a span was open.
pub open spec fn span_total(s: SpanModel) -> u64 {
    match s.closed_at_ns {
        Some(closed) => sat_sub(closed, s.opened_at_ns),
        None => 0,
    }
}

/// A span in the window.
pub ghost struct EntryModel {
    pub span: SpanModel,
    pub bucket: KeyModel,
    /// The time that the span's children in the window took.
    pub child_sum: u64,
}

impl EntryModel {
    pub open spec fn total_ns(self) -> u64 {
        span_total(self.span)
    }

    /// The time that the span did not spend in its children.
    pub open spec fn self_ns(self) -> u64 {
        sat_sub(self.total_ns(), self.child_sum)
    }

    /// The total time or the self time.
    pub open spec fn share(self, own: bool) -> u64 {
        if own {
            self.self_ns()
        } else {
            self.total_ns()
        }
    }
}

/// The window and the spans that wait for their parent, both in the order of
/// arrival.
pub ghost struct AggModel {
    pub ring: Seq<EntryModel>,
    pub pending: Seq<SpanModel>,
    pub split_keys: Set<Text>,
    pub budget: nat,
}

pub open spec fn has_id(ring: Seq<EntryModel>, id: u64) -> bool {
    exists|i: int| 0 <= i < ring.len() && (#[trigger] ring[i]).span.id == id
}

/// The newest span with the given id stands at `i`.
pub open spec fn is_newest(ring: Seq<EntryModel>, id: u64, i: int) -> bool {
    &&& 0 <= i < ring.len()
    &&& ring[i].span.id == id
    &&& forall|j: int| i < j < ring.len() ==> (#[trigger] ring[j]).span.id != id
}

/// Where the newest span with the given id stands.
pub open spec fn index_of_id(ring: Seq<EntryModel>, id: u64) -> int {
    choose|i: int| is_newest(ring, id, i)
}

/// An id that is in the window has a newest holder.
pub proof fn newest_stands(ring: Seq<EntryModel>, id: u64)
    requires
        has_id(ring, id),
    ensures
        is_newest(ring, id, index_of_id(ring, id)),
    decreases ring.len(),
{
    let last = ring.len() - 1;
    let k = choose|k: int| 0 <= k < ring.len() && (#[trigger] ring[k]).span.id == id;
    if ring[last].span.id == id {
        assert(is_newest(ring, id, last));
    } else {
        let front = ring.drop_last();
        assert(front[k].span.id == id);
        newest_stands(front, id);
        let i = index_of_id(front, id);
        assert forall|j: int| i < j < ring.len() implies (#[trigger] ring[j]).span.id != id by {
            if j < last {
                assert(front[j] == ring[j]);
            }
        }
        assert(is_newest(ring, id, i));
    }
}

/// An id has only one newest holder.
pub proof fn newest_is_only(ring: Seq<EntryModel>, id: u64, i: int)
    requires
        is_newest(ring, id, i),
    ensures
        has_id(ring, id),
        index_of_id(ring, id) == i,
{
    assert(ring[i].span.id == id);
    let k = index_of_id(ring, id);
    assert(is_newest(ring, id, k));
    if k < i {
        assert(ring[i].span.id != id);
    } else if i < k {
        assert(ring[k].span.id != id);
    }
}

pub open spec fn unique_ids(ring: Seq<EntryModel>) -> bool {
    forall|i: int, j: int|
        0 <= i < j < ring.len() ==> (#[trigger] ring[i]).span.id != (#[trigger] ring[j]).span.id
}

/// Adds a child's time to what its parent's children took.
/// The parent is the newest span of that id.
pub open spec fn credited(
    ring: Seq<EntryModel>,
    parent: Option<u64>,
    total: u64,
) -> Seq<EntryModel> {
    match parent {
        Some(p) => if has_id(ring, p) {
            let i = index_of_id(ring, p);
            ring.update(i, EntryModel { child_sum: sat_add(ring[i].child_sum, total), ..ring[i] })
        } else {
            ring
        },
        None => ring,
    }
}

/// Takes a child's time off what its parent's children took.
/// The parent is the newest span of that id.
pub open spec fn debited(
    ring: Seq<EntryModel>,
    parent: Option<u64>,
    total: u64,
) -> Seq<EntryModel> {
    match parent {
        Some(p) => if has_id(ring, p) {
            let i = index_of_id(ring, p);
            ring.update(i, EntryModel { child_sum: sat_sub(ring[i].child_sum, total), ..ring[i] })
        } else {
            ring
        },
        None => ring,
    }
}

/// Only what the children of the parent took changes.
pub proof fn credited_each(ring: Seq<EntryModel>, parent: Option<u64>, total: u64)
    ensures
        credited(ring, parent, total).len() == ring.len(),
        forall|i: int|
            0 <= i < ring.len() ==> {
                &&& (#[trigger] credited(ring, parent, total)[i]).span == ring[i].span
                &&& credited(ring, parent, total)[i].bucket == ring[i].bucket
                &&& unique_ids(ring) ==> credited(ring, parent, total)[i].child_sum == if parent
                    == Some(ring[i].span.id) {
                    sat_add(ring[i].child_sum, total)
                } else {
                    ring[i].child_sum
                }
            },
        forall|id: u64| #[trigger] has_id(credited(ring, parent, total), id) <==> has_id(ring, id),
{
    let after = credited(ring, parent, total);
    if let Some(p) = parent {
        if has_id(ring, p) {
            newest_stands(ring, p);
            let k = index_of_id(ring, p);
            assert forall|i: int| 0 <= i < ring.len() && i != k && unique_ids(ring) implies (
            #[trigger] ring[i]).span.id != p by {
                if i < k {
                    assert(ring[i].span.id != ring[k].span.id);
                }
            }
        } else {
            assert forall|i: int| 0 <= i < ring.len() implies (#[trigger] ring[i]).span.id
                != p by {
                if ring[i].span.id == p {
                    assert(has_id(ring, p));
                }
            }
        }
    }
    assert forall|id: u64| #[trigger] has_id(after, id) <==> has_id(ring, id) by {
        if has_id(after, id) {
            let i = choose|i: int| 0 <= i < after.len() && (#[trigger] after[i]).span.id == id;
            assert(ring[i].span.id == id);
        }
        if has_id(ring, id) {
            let i = choose|i: int| 0 <= i < ring.len() && (#[trigger] ring[i]).span.id == id;
            assert(after[i].span.id == id);
        }
    }
}

/// Only what the children of the parent took changes.
pub proof fn debited_each(ring: Seq<EntryModel>, parent: Option<u64>, total: u64)
    ensures
        debited(ring, parent, total).len() == ring.len(),
        forall|i: int|
            0 <= i < ring.len() ==> {
                &&& (#[trigger] debited(ring, parent, total)[i]).span == ring[i].span
                &&& debited(ring, parent, total)[i].bucket == ring[i].bucket
                &&& unique_ids(ring) ==> debited(ring, parent, total)[i].child_sum == if parent
                    == Some(ring[i].span.id) {
                    sat_sub(ring[i].child_sum, total)
                } else {
                    ring[i].child_sum
                }
            },
        forall|id: u64| #[trigger] has_id(debited(ring, parent, total), id) <==> has_id(ring, id),
{
    let after = debited(ring, parent, total);
    if let Some(p) = parent {
        if has_id(ring, p) {
            newest_stands(ring, p);
            let k = index_of_id(ring, p);
            assert forall|i: int| 0 <= i < ring.len() && i != k && unique_ids(ring) implies (
            #[trigger] ring[i]).span.id != p by {
                if i < k {
                    assert(ring[i].span.id != ring[k].span.id);
                }
            }
        } else {
            assert forall|i: int| 0 <= i < ring.len() implies (#[trigger] ring[i]).span.id
                != p by {
                if ring[i].span.id == p {
                    assert(has_id(ring, p));
                }
            }
        }
    }
    assert forall|id: u64| #[trigger] has_id(after, id) <==> has_id(ring, id) by {
        if has_id(after, id) {
            let i = choose|i: int| 0 <= i < after.len() && (#[trigger] after[i]).span.id == id;
            assert(ring[i].span.id == id);
        }
        if has_id(ring, id) {
            let i = choose|i: int| 0 <= i < ring.len() && (#[trigger] ring[i]).span.id == id;
            assert(after[i].span.id == id);
        }
    }
}

/// The window after its oldest span has left it.
pub open spec fn without_oldest(ring: Seq<EntryModel>) -> Seq<EntryModel> {
    debited(ring.remove(0), ring[0].span.parent_id, ring[0].total_ns())
}

/// The window with room for one more span: the oldest leaves a full one.
pub open spec fn with_room(ring: Seq<EntryModel>, budget: nat) -> Seq<EntryModel> {
    if ring.len() > 0 && ring.len() >= budget {
        without_oldest(ring)
    } else {
        ring
    }
}

/// The time that the children of an id took, as its newest holder has it.
pub open spec fn child_sum_of(ring: Seq<EntryModel>, id: u64) -> u64 {
    if has_id(ring, id) {
        ring[index_of_id(ring, id)].child_sum
    } else {
        0
    }
}

/// The window after a span has joined it. A span whose id is in the window
/// already joins it too: both count, and the children of the earlier one are
/// taken for its own.
pub open spec fn joined(
    ring: Seq<EntryModel>,
    span: SpanModel,
    bucket: KeyModel,
    budget: nat,
) -> Seq<EntryModel> {
    let room = with_room(ring, budget);
    credited(room, span.parent_id, span_total(span)).push(
        EntryModel { span, bucket, child_sum: child_sum_of(room, span.id) },
    )
}

/// Making room keeps the spans and the buckets, but for the oldest of a full
/// window.
pub proof fn with_room_keeps(ring: Seq<EntryModel>, budget: nat)
    ensures
        ({
            let shift: int = if ring.len() > 0 && ring.len() >= budget {
                1
            } else {
                0
            };
            &&& with_room(ring, budget).len() == ring.len() - shift
            &&& forall|i: int|
                0 <= i < ring.len() - shift ==> {
                    &&& (#[trigger] with_room(ring, budget)[i]).span == ring[i + shift].span
                    &&& with_room(ring, budget)[i].bucket == ring[i + shift].bucket
                }
        }),
{
    if ring.len() > 0 && ring.len() >= budget {
        debited_each(ring.remove(0), ring[0].span.parent_id, ring[0].total_ns());
    }
}

/// Joining keeps the spans and the buckets of those for which there is room.
pub proof fn joined_keeps(
    ring: Seq<EntryModel>,
    span: SpanModel,
    bucket: KeyModel,
    budget: nat,
)
    ensures
        ({
            let after = joined(ring, span, bucket, budget);
            let room = with_room(ring, budget);
            &&& after.len() == room.len() + 1
            &&& after.last().span == span
            &&& after.last().bucket == bucket
            &&& forall|i: int|
                0 <= i < room.len() ==> {
                    &&& (#[trigger] after[i]).span == room[i].span
                    &&& after[i].bucket == room[i].bucket
                }
        }),
{
    credited_each(with_room(ring, budget), span.parent_id, span_total(span));
}

/// The first value given to each name.
pub open spec fn lookup(fields: Seq<(Text, Text)>) -> Map<Text, Text> {
    Map::new(
        |name: Text| exists|i: int| first_named(fields, name, i),
        |name: Text| fields[choose|i: int| first_named(fields, name, i)].1,
    )
}

/// The pairs of a map, ascending by name.
pub open spec fn as_pairs(map: Map<Text, Text>) -> Seq<(Text, Text)> {
    listing(key_order::<String>(), map.dom()).map_values(|name: Text| (name, map[name]))
}

/// The values that a span itself gives to the split keys.
pub open spec fn own_splits(span: SpanModel, keys: Set<Text>) -> Map<Text, Text> {
    lookup(span.fields).restrict(keys)
}

pub open spec fn root_bucket(span: SpanModel, keys: Set<Text>) -> KeyModel {
    KeyModel { stack: seq![span.name], splits: as_pairs(own_splits(span, keys)) }
}

/// The bucket of a child: its parent's stack extended by its name, and its
/// parent's split values where it gives none itself.
pub open spec fn child_bucket(parent: KeyModel, span: SpanModel, keys: Set<Text>) -> KeyModel {
    KeyModel {
        stack: parent.stack.push(span.name),
        splits: as_pairs(lookup(parent.splits).union_prefer_right(own_splits(span, keys))),
    }
}

/// The bucket of an arriving span, if its parent is in the window or it has
/// none.
pub open spec fn bucket_for(m: AggModel, span: SpanModel) -> Option<KeyModel> {
    match span.parent_id {
        None => Some(root_bucket(span, m.split_keys)),
        Some(p) => if has_id(m.ring, p) {
            Some(child_bucket(m.ring[index_of_id(m.ring, p)].bucket, span, m.split_keys))
        } else {
            None
        },
    }
}

/// How many spans may wait for their parent.
pub open spec fn pending_cap(budget: nat) -> nat {
    if budget / 4 >= 1 {
        budget / 4
    } else {
        1
    }
}

/// `parent` is the smallest id that any of the spans waits for.
pub open spec fn is_lowest_parent(pending: Seq<SpanModel>, parent: u64) -> bool {
    &&& exists|i: int| 0 <= i < pending.len() && (#[trigger] pending[i]).parent_id == Some(parent)
    &&& forall|i: int|
        0 <= i < pending.len() ==> match (#[trigger] pending[i]).parent_id {
            Some(p) => parent <= p,
            None => true,
        }
}

pub open spec fn lowest_parent(pending: Seq<SpanModel>) -> u64 {
    choose|p: u64| is_lowest_parent(pending, p)
}

/// The spans that wait for `id`.
pub open spec fn waiting_for(pending: Seq<SpanModel>, id: u64) -> Seq<SpanModel> {
    pending.filter(|s: SpanModel| s.parent_id == Some(id))
}

/// The spans that do not wait for `id`.
pub open spec fn not_waiting_for(pending: Seq<SpanModel>, id: u64) -> Seq<SpanModel> {
    pending.filter(|s: SpanModel| s.parent_id != Some(id))
}

/// A span begins to wait. When too many wait, those that wait for the
/// smallest id are dropped.
pub open spec fn parked(m: AggModel, span: SpanModel) -> AggModel {
    let all = m.pending.push(span);
    AggModel {
        pending: if all.len() > pending_cap(m.budget) {
            not_waiting_for(all, lowest_parent(all))
        } else {
            all
        },
        ..m
    }
}

/// A span joins the window, and those that waited for it wait no more.
pub open spec fn admitted(m: AggModel, span: SpanModel, bucket: KeyModel) -> AggModel {
    AggModel {
        ring: joined(m.ring, span, bucket, m.budget),
        pending: not_waiting_for(m.pending, span.id),
        ..m
    }
}

/// Every span either waits for `id` or does not.
pub proof fn waiting_is_partition(pending: Seq<SpanModel>, id: u64)
    ensures
        waiting_for(pending, id).len() + not_waiting_for(pending, id).len() == pending.len(),
    decreases pending.len(),
{
    reveal(Seq::filter);
    if pending.len() > 0 {
        waiting_is_partition(pending.drop_last(), id);
    }
}

proof fn filter_is_shorter(s: Seq<SpanModel>, p: spec_fn(SpanModel) -> bool)
    ensures
        s.filter(p).len() <= s.len(),
    decreases s.len(),
{
    reveal(Seq::filter);
    if s.len() > 0 {
        filter_is_shorter(s.drop_last(), p);
    }
}

/// At most one more span waits after a span has begun to wait.
pub proof fn parked_adds_at_most_one(m: AggModel, span: SpanModel)
    ensures
        parked(m, span).pending.len() <= m.pending.len() + 1,
{
    let all = m.pending.push(span);
    let low = lowest_parent(all);
    filter_is_shorter(all, |s: SpanModel| s.parent_id != Some(low));
}

/// Takes in the spans of `todo` one after the other, each followed by the
/// spans that waited for it. Gives the model afterwards and the ids that
/// joined the window.
pub open spec fn settled(m: AggModel, todo: Seq<SpanModel>) -> (AggModel, Seq<u64>)
    decreases m.pending.len() + todo.len(), todo.len(),
{
    if todo.len() == 0 {
        (m, Seq::empty())
    } else {
        let span = todo[0];
        let rest = todo.skip(1);
        match bucket_for(m, span) {
            None => {
                proof {
                    parked_adds_at_most_one(m, span);
                }
                settled(parked(m, span), rest)
            },
            Some(bucket) => {
                proof {
                    waiting_is_partition(m.pending, span.id);
                }
                let (after, ids) = settled(
                    admitted(m, span, bucket),
                    waiting_for(m.pending, span.id) + rest,
                );
                (after, seq![span.id] + ids)
            },
        }
    }
}

/// What the arrival of a span does: a span still in flight is ignored.
pub open spec fn absorbed(m: AggModel, span: SpanModel) -> (AggModel, Seq<u64>) {
    if span.closed_at_ns is Some {
        settled(m, seq![span])
    } else {
        (m, Seq::empty())
    }
}

/// The bucket of a span of the window under other split keys, where those
/// before it are bucketed already. It follows from the parent's bucket while
/// the parent is there. A span whose parent has left keeps its stack, and the
/// inherited values of the keys that stay.
pub open spec fn new_bucket(before: Seq<EntryModel>, e: EntryModel, keys: Set<Text>) -> KeyModel {
    match e.span.parent_id {
        None => root_bucket(e.span, keys),
        Some(p) => if has_id(before, p) {
            child_bucket(before[index_of_id(before, p)].bucket, e.span, keys)
        } else {
            KeyModel {
                stack: e.bucket.stack,
                splits: as_pairs(
                    lookup(e.bucket.splits).restrict(keys).union_prefer_right(
                        own_splits(e.span, keys),
                    ),
                ),
            }
        },
    }
}

/// The spans of a window, each in its place and in its new bucket.
pub open spec fn rebucketed(ring: Seq<EntryModel>, keys: Set<Text>) -> Seq<EntryModel>
    decreases ring.len(),
{
    if ring.len() == 0 {
        Seq::empty()
    } else {
        let before = rebucketed(ring.drop_last(), keys);
        before.push(
            EntryModel { bucket: new_bucket(before, ring.last(), keys), ..ring.last() },
        )
    }
}

/// The window bucketed anew under other split keys.
pub open spec fn resplit(m: AggModel, keys: Set<Text>) -> AggModel {
    if keys == m.split_keys {
        m
    } else {
        AggModel { ring: rebucketed(m.ring, keys), split_keys: keys, ..m }
    }
}

/// New buckets change nothing but the buckets.
pub proof fn rebucketed_keeps_spans(ring: Seq<EntryModel>, keys: Set<Text>)
    ensures
        rebucketed(ring, keys).len() == ring.len(),
        forall|i: int|
            0 <= i < ring.len() ==> {
                &&& (#[trigger] rebucketed(ring, keys)[i]).span == ring[i].span
                &&& rebucketed(ring, keys)[i].child_sum == ring[i].child_sum
            },
        forall|id: u64| #[trigger] has_id(rebucketed(ring, keys), id) <==> has_id(ring, id),
    decreases ring.len(),
{
    let after = rebucketed(ring, keys);
    if ring.len() > 0 {
        let front = ring.drop_last();
        rebucketed_keeps_spans(front, keys);
        assert forall|i: int| 0 <= i < ring.len() implies {
            &&& (#[trigger] after[i]).span == ring[i].span
            &&& after[i].child_sum == ring[i].child_sum
        } by {
            if i < front.len() {
                assert(after[i] == rebucketed(front, keys)[i]);
                assert(front[i] == ring[i]);
            }
        }
    }
    assert forall|id: u64| #[trigger] has_id(after, id) <==> has_id(ring, id) by {
        if has_id(after, id) {
            let i = choose|i: int| 0 <= i < after.len() && (#[trigger] after[i]).span.id == id;
            assert(ring[i].span.id == id);
        }
        if has_id(ring, id) {
            let i = choose|i: int| 0 <= i < ring.len() && (#[trigger] ring[i]).span.id == id;
            assert(after[i].span.id == id);
        }
    }
}

/// What is written down of a window: its spans, those that wait, and the
/// settings. The statistics follow from these.
pub ghost struct SnapshotModel {
    pub spans: Seq<SpanModel>,
    pub pending: Seq<SpanModel>,
    pub split_keys: Set<Text>,
    pub budget: nat,
}

/// What is written down of a window.
pub open spec fn snapshot_of(m: AggModel) -> SnapshotModel {
    SnapshotModel {
        spans: m.ring.map_values(|e: EntryModel| e.span),
        pending: m.pending,
        split_keys: m.split_keys,
        budget: m.budget,
    }
}

/// Spans arrive one after the other.
pub open spec fn all_absorbed(m: AggModel, spans: Seq<SpanModel>) -> AggModel
    decreases spans.len(),
{
    if spans.len() == 0 {
        m
    } else {
        absorbed(all_absorbed(m, spans.drop_last()), spans.last()).0
    }
}

/// Spans begin to wait one after the other.
pub open spec fn all_parked(m: AggModel, spans: Seq<SpanModel>) -> AggModel
    decreases spans.len(),
{
    if spans.len() == 0 {
        m
    } else {
        parked(all_parked(m, spans.drop_last()), spans.last())
    }
}

/// A window that holds nothing.
pub open spec fn empty_window(split_keys: Set<Text>, budget: nat) -> AggModel {
    AggModel { ring: Seq::empty(), pending: Seq::empty(), split_keys, budget }
}

/// The window that is made from what was written down: its spans arrive
/// again, and those that waited wait again.
pub open spec fn restored(s: SnapshotModel) -> AggModel {
    all_parked(all_absorbed(empty_window(s.split_keys, s.budget), s.spans), s.pending)
}

/// Every waiting span waits for a parent that was not in the window.
pub open spec fn parents_missing(s: SnapshotModel) -> bool {
    forall|i: int|
        0 <= i < s.pending.len() ==> match (#[trigger] s.pending[i]).parent_id {
            Some(p) => !names_id(s.spans, p),
            None => false,
        }
}

/// The times that the spans of one bucket contribute to its statistics.
pub open spec fn shares_in(ring: Seq<EntryModel>, key: KeyModel, own: bool) -> Multiset<u64>
    decreases ring.len(),
{
    if ring.len() == 0 {
        Multiset::empty()
    } else {
        let rest = shares_in(ring.drop_last(), key, own);
        if ring.last().bucket == key {
            rest.insert(ring.last().share(own))
        } else {
            rest
        }
    }
}

/// Some span of the window belongs to the bucket.
pub open spec fn occupied(ring: Seq<EntryModel>, key: KeyModel) -> bool {
    exists|i: int| 0 <= i < ring.len() && (#[trigger] ring[i]).bucket == key
}

/// The buckets to which spans of the window belong.
pub open spec fn buckets_of(ring: Seq<EntryModel>) -> Set<KeyModel> {
    ring.map_values(|e: EntryModel| e.bucket).to_set()
}

/// One row for every bucket, in the order of rows.
pub open spec fn rows_of(ring: Seq<EntryModel>) -> Seq<(KeyModel, StackStats)> {
    listing(key_order::<BucketKey>(), buckets_of(ring)).map_values(
        |key: KeyModel|
            (key, stats_of(shares_in(ring, key, false), shares_in(ring, key, true))),
    )
}

pub open spec fn rows_model(rows: Seq<(BucketKey, StackStats)>) -> Seq<(KeyModel, StackStats)> {
    rows.map_values(|r: (BucketKey, StackStats)| (r.0.model(), r.1))
}

/// How many spans of a chain of ancestors are asked for split values.
pub const SPLIT_DEPTH: u64 = 65;

/// The values that a span of the window and at most `depth - 1` of its
/// ancestors give to some keys; the nearest wins.
pub open spec fn nearest_splits(
    ring: Seq<EntryModel>,
    at: Option<u64>,
    keys: Set<Text>,
    depth: nat,
) -> Map<Text, Text>
    decreases depth,
{
    match at {
        Some(id) => if depth > 0 && has_id(ring, id) {
            let span = ring[index_of_id(ring, id)].span;
            nearest_splits(ring, span.parent_id, keys, (depth - 1) as nat).union_prefer_right(
                own_splits(span, keys),
            )
        } else {
            Map::empty()
        },
        None => Map::empty(),
    }
}

/// One of the spans has the given id.
pub open spec fn names_id(spans: Seq<SpanModel>, id: u64) -> bool {
    exists|i: int| 0 <= i < spans.len() && (#[trigger] spans[i]).id == id
}

/// Taking spans in changes neither the split keys nor the budget.
pub proof fn settled_keeps_settings(m: AggModel, todo: Seq<SpanModel>)
    ensures
        settled(m, todo).0.split_keys == m.split_keys,
        settled(m, todo).0.budget == m.budget,
    decreases m.pending.len() + todo.len(), todo.len(),
{
    if todo.len() > 0 {
        let span = todo[0];
        let rest = todo.skip(1);
        match bucket_for(m, span) {
            None => {
                parked_adds_at_most_one(m, span);
                settled_keeps_settings(parked(m, span), rest);
            },
            Some(bucket) => {
                waiting_is_partition(m.pending, span.id);
                settled_keeps_settings(
                    admitted(m, span, bucket),
                    waiting_for(m.pending, span.id) + rest,
                );
            },
        }
    }
}

proof fn filtered_names(s: Seq<SpanModel>, p: spec_fn(SpanModel) -> bool, id: u64)
    requires
        names_id(s.filter(p), id),
    ensures
        names_id(s, id),
{
    let i = choose|i: int| 0 <= i < s.filter(p).len() && (#[trigger] s.filter(p)[i]).id == id;
    let x = s.filter(p)[i];
    assert(s.filter(p).contains(x));
    s.lemma_filter_contains_rev(p, x);
    let j = choose|j: int| 0 <= j < s.len() && s[j] == x;
    assert(s[j].id == id);
}

/// Only the ids that were in the window or arrive are in it afterwards.
pub proof fn joined_ids(
    ring: Seq<EntryModel>,
    span: SpanModel,
    bucket: KeyModel,
    budget: nat,
    id: u64,
)
    requires
        has_id(joined(ring, span, bucket, budget), id),
    ensures
        id == span.id || has_id(ring, id),
{
    let after = joined(ring, span, bucket, budget);
    let i = choose|i: int| 0 <= i < after.len() && (#[trigger] after[i]).span.id == id;
    joined_keeps(ring, span, bucket, budget);
    with_room_keeps(ring, budget);
    if i < after.len() - 1 {
        let room = with_room(ring, budget);
        assert(room[i].span.id == id);
        let shift = ring.len() - room.len();
        assert(ring[i + shift].span.id == id);
    }
}

/// The ids in the window and among the waiting spans come from the window,
/// the waiting spans and the spans taken in.
pub proof fn settled_ids(m: AggModel, todo: Seq<SpanModel>, id: u64)
    ensures
        has_id(settled(m, todo).0.ring, id) ==> has_id(m.ring, id) || names_id(m.pending, id)
            || names_id(todo, id),
        names_id(settled(m, todo).0.pending, id) ==> names_id(m.pending, id) || names_id(todo, id),
    decreases m.pending.len() + todo.len(), todo.len(),
{
    if todo.len() > 0 {
        let span = todo[0];
        let rest = todo.skip(1);
        if names_id(rest, id) {
            let i = choose|i: int| 0 <= i < rest.len() && (#[trigger] rest[i]).id == id;
            assert(todo[i + 1].id == id);
        }
        if span.id == id {
            assert(todo[0].id == id);
            assert(names_id(todo, id));
        }
        match bucket_for(m, span) {
            None => {
                parked_adds_at_most_one(m, span);
                settled_ids(parked(m, span), rest, id);
                if names_id(parked(m, span).pending, id) {
                    let all = m.pending.push(span);
                    if all.len() > pending_cap(m.budget) {
                        let low = lowest_parent(all);
                        filtered_names(all, |s: SpanModel| s.parent_id != Some(low), id);
                    }
                    let i = choose|i: int| 0 <= i < all.len() && (#[trigger] all[i]).id == id;
                    if i < m.pending.len() {
                        assert(m.pending[i].id == id);
                    }
                }
            },
            Some(bucket) => {
                waiting_is_partition(m.pending, span.id);
                let next = admitted(m, span, bucket);
                let w = waiting_for(m.pending, span.id);
                settled_ids(next, w + rest, id);
                if has_id(next.ring, id) {
                    joined_ids(m.ring, span, bucket, m.budget, id);
                }
                if names_id(next.pending, id) {
                    filtered_names(m.pending, |s: SpanModel| s.parent_id != Some(span.id), id);
                }
                if names_id(w + rest, id) {
                    let i = choose|i: int|
                        0 <= i < (w + rest).len() && (#[trigger] (w + rest)[i]).id == id;
                    if i < w.len() {
                        assert(w[i].id == id);
                        filtered_names(m.pending, |s: SpanModel| s.parent_id == Some(span.id), id);
                    } else {
                        assert(rest[i - w.len()].id == id);
                    }
                }
            },
        }
    }
}

/// A new span adds its share to its bucket.
pub proof fn shares_after_push(ring: Seq<EntryModel>, e: EntryModel, key: KeyModel, own: bool)
    ensures
        shares_in(ring.push(e), key, own) == if e.bucket == key {
            shares_in(ring, key, own).insert(e.share(own))
        } else {
            shares_in(ring, key, own)
        },
{
    assert(ring.push(e).drop_last() =~= ring);
}

/// A span that leaves takes its share out of its bucket.
pub proof fn shares_after_remove(ring: Seq<EntryModel>, i: int, key: KeyModel, own: bool)
    requires
        0 <= i < ring.len(),
    ensures
        shares_in(ring, key, own) == if ring[i].bucket == key {
            shares_in(ring.remove(i), key, own).insert(ring[i].share(own))
        } else {
            shares_in(ring.remove(i), key, own)
        },
    decreases ring.len(),
{
    let last = ring.len() - 1;
    if i == last {
        assert(ring.remove(i) =~= ring.drop_last());
    } else {
        let front = ring.drop_last();
        shares_after_remove(front, i, key, own);
        assert(ring.remove(i).drop_last() =~= front.remove(i));
        assert(ring.remove(i).last() == ring.last());
        if ring[i].bucket == key && ring.last().bucket == key {
            let base = shares_in(front.remove(i), key, own);
            assert(base.insert(ring[i].share(own)).insert(ring.last().share(own)) =~= base.insert(
                ring.last().share(own),
            ).insert(ring[i].share(own)));
        }
    }
}

/// Changing a span changes its share alone.
pub proof fn shares_after_update(
    ring: Seq<EntryModel>,
    i: int,
    e: EntryModel,
    key: KeyModel,
    own: bool,
)
    requires
        0 <= i < ring.len(),
        e.bucket == ring[i].bucket,
    ensures
        shares_in(ring.update(i, e), key, own) == if e.bucket == key {
            shares_in(ring, key, own).remove(ring[i].share(own)).insert(e.share(own))
        } else {
            shares_in(ring, key, own)
        },
        e.bucket == key ==> shares_in(ring, key, own).contains(ring[i].share(own)),
{
    let after = ring.update(i, e);
    shares_after_remove(ring, i, key, own);
    shares_after_remove(after, i, key, own);
    assert(after.remove(i) =~= ring.remove(i));
    if e.bucket == key {
        let base = shares_in(ring.remove(i), key, own);
        assert(base.insert(ring[i].share(own)).remove(ring[i].share(own)) =~= base);
    }
}

/// A bucket holds as many shares as spans of the window belong to it.
pub proof fn shares_count(ring: Seq<EntryModel>, key: KeyModel)
    ensures
        shares_in(ring, key, true).len() == shares_in(ring, key, false).len(),
        shares_in(ring, key, false).len() <= ring.len(),
        occupied(ring, key) <==> shares_in(ring, key, false).len() > 0,
    decreases ring.len(),
{
    if ring.len() > 0 {
        shares_count(ring.drop_last(), key);
        if occupied(ring.drop_last(), key) {
            let i = choose|i: int|
                0 <= i < ring.drop_last().len() && (#[trigger] ring.drop_last()[i]).bucket == key;
            assert(ring[i].bucket == key);
        }
        if ring.last().bucket == key {
            assert(ring[ring.len() - 1].bucket == key);
        } else if occupied(ring, key) {
            let i = choose|i: int| 0 <= i < ring.len() && (#[trigger] ring[i]).bucket == key;
            assert(i < ring.len() - 1);
            assert(ring.drop_last()[i].bucket == key);
        }
    }
}

} // verus!
