//! What holds of the cache as a whole.

use vstd::prelude::*;

use crate::cache::config::CacheConfig;
use crate::cache::driver::{is_smallest, smallest_exists};
use crate::cache::ident::{ids_tell_their_slot, lane_unit, slot_id, DISABLED, SLAB_OFFSET};
use crate::cache::predicate::AttributesModel;
use crate::cache::record::SpanRecordModel;
use crate::cache::store::{
    empty_cache, event_parent, ids_after, new_record, page_of, parent_for, slot_filled, slot_free,
    sound, span_closed, span_kept, span_opened, CacheModel, EventInModel,
};
use crate::cache::thread::{id_taken, ThreadModel};
use crate::order::{key_order, key_order_is_strict};
use crate::sorted::{ascending, ascending_is_listing, finite_sets_are_listed};

verus! {

proof fn slots_have_ids(c: CacheModel, shard: int, slot: int)
    requires
        sound(c),
        0 <= shard < c.lanes.len(),
        0 <= slot < c.shard_capacity,
    ensures
        slot + SLAB_OFFSET < lane_unit(c.bits),
{
    assert(lane_unit(c.bits) >= 0x0100_0000_0000_0000);
}

/// A recorded span that is closed leaves its slot and is handed over as it was
/// opened, with the time at which it was closed.
pub proof fn closing_hands_the_span_over(
    c: CacheModel,
    t: ThreadModel,
    span: AttributesModel,
    opened: u64,
    closed: u64,
    c1: CacheModel,
    t1: ThreadModel,
    id: u64,
)
    requires
        sound(c),
        span_opened(c, t, span, true, opened, c1, t1, id),
        id != DISABLED,
    ensures
        ({
            let (c2, t2, was_open) = span_closed(c1, t1, id, closed);
            let shard = c.lane_of(t);
            let actual = id_taken(c.id_high_water, t.id_cursor).0;
            let record = new_record(actual, parent_for(c, t, span.parent)->0, span, opened);
            &&& was_open
            &&& t2.spans == t.spans.push(SpanRecordModel { closed_at: Some(closed), ..record })
            &&& t2.stack == t.stack
            &&& t2.events == t.events
            &&& c2.closed == c.closed
            &&& c2.lanes.len() == c.lanes.len()
            &&& c2.lanes[shard].spans == c.lanes[shard].spans
            &&& forall|i: int|
                0 <= i < c.lanes.len() && i != shard ==> #[trigger] c2.lanes[i] == c.lanes[i]
        }),
{
    let shard = c.lane_of(t);
    let (c2, t2, was_open) = span_closed(c1, t1, id, closed);
    let s = choose|s: int| #[trigger]
        slot_free(c, shard, s) && id == slot_id(c.bits, shard, s) && c1
            == slot_filled(
            CacheModel { id_high_water: c1.id_high_water, ..c },
            shard,
            s,
            new_record(
                id_taken(c.id_high_water, t.id_cursor).0,
                parent_for(c, t, span.parent)->0,
                span,
                opened,
            ),
        );
    slots_have_ids(c, shard, s);
    ids_tell_their_slot(c.bits, shard, s);
    assert(c2.lanes[shard].spans =~= c.lanes[shard].spans);
}

/// Only closed spans are handed over.
pub proof fn only_closed_spans_are_handed_over(c: CacheModel, t: ThreadModel, id: u64, now: u64)
    ensures
        ({
            let (c2, t2, was_open) = span_closed(c, t, id, now);
            &&& was_open ==> t2.spans.len() == t.spans.len() + 1 && t2.spans.drop_last()
                == t.spans && t2.spans.last().closed_at == Some(now)
            &&& !was_open ==> c2 == c && t2 == t
        }),
{
    let (c2, t2, was_open) = span_closed(c, t, id, now);
    if was_open {
        assert(t2.spans.drop_last() =~= t.spans);
    }
}

/// Within a span that is not recorded nothing is recorded: no span that hangs
/// on it, no root, and no event.
pub proof fn nothing_within_an_unrecorded_span(
    c: CacheModel,
    t: ThreadModel,
    span: AttributesModel,
    answer: bool,
    now: u64,
    c1: CacheModel,
    t1: ThreadModel,
    id: u64,
    event: EventInModel,
)
    requires
        t.top() is Some,
        t.top()->0.tracing_id == DISABLED,
        span_opened(c, t, span, answer, now, c1, t1, id),
        !(span.parent is Explicit),
        event.parent is None,
    ensures
        id == DISABLED,
        c1 == c,
        t1 == t,
        event_parent(c, t, event) is None,
{
}

/// The open spans of a lane fit into its slots.
pub open spec fn lanes_fit(c: CacheModel) -> bool {
    forall|i: int|
        0 <= i < c.lanes.len() ==> (#[trigger] c.lanes[i]).spans.dom().finite()
            && c.lanes[i].spans.dom().len() <= c.shard_capacity
}

/// However many spans are opened, no more are held than there are slots.
pub proof fn open_spans_stay_bounded(
    c: CacheModel,
    t: ThreadModel,
    span: AttributesModel,
    answer: bool,
    now: u64,
    c1: CacheModel,
    t1: ThreadModel,
    id: u64,
)
    requires
        sound(c),
        lanes_fit(c),
        span_opened(c, t, span, answer, now, c1, t1, id),
    ensures
        lanes_fit(c1),
{
    let shard = c.lane_of(t);
    assert forall|i: int| 0 <= i < c1.lanes.len() implies (
    #[trigger] c1.lanes[i]).spans.dom().finite() && c1.lanes[i].spans.dom().len()
        <= c1.shard_capacity by {
        assert(c1.lanes.len() == c.lanes.len());
        assert(c.lanes[i].spans.dom().finite());
        if c1.lanes[i] != c.lanes[i] {
            let slot = choose|slot: int| #[trigger]
                slot_free(c, shard, slot) && c1.lanes[i].spans.dom()
                    == c.lanes[i].spans.dom().insert(slot);
            assert(exists|slot: int| #[trigger]
                slot_free(c, shard, slot) && c1.lanes[i].spans.dom()
                    =~= c.lanes[i].spans.dom().insert(slot));
            assert(i == shard);
        }
    }
}

/// The kept spans are held under their ids, and no more of them than the cache
/// is made for.
pub open spec fn kept_well(c: CacheModel) -> bool {
    &&& c.closed.dom().finite()
    &&& c.closed.dom().len() <= c.capacity
    &&& forall|id: u64| #[trigger] c.closed.dom().contains(id) ==> c.closed[id].id == id
}

/// A new cache holds nothing.
pub proof fn a_new_cache_fits(capacity: nat, config: CacheConfig)
    ensures
        lanes_fit(empty_cache(capacity, config)),
        kept_well(empty_cache(capacity, config)),
{
}

/// However many spans are closed, no more are kept than the cache is made for,
/// and where one has to go it is the oldest.
pub proof fn the_oldest_kept_span_goes(c: CacheModel, record: SpanRecordModel, id: u64)
    requires
        kept_well(c),
    ensures
        kept_well(span_kept(c, record)),
        c.closed.dom().contains(id) && !span_kept(c, record).closed.dom().contains(id)
            ==> forall|other: u64| #[trigger]
            span_kept(c, record).closed.dom().contains(other) ==> id < other,
        c.closed.dom().len() < c.capacity ==> span_kept(c, record).closed == c.closed.insert(
            record.id,
            record,
        ),
{
    let all = c.closed.insert(record.id, record);
    assert(all.dom() =~= c.closed.dom().insert(record.id));
    if all.dom().len() > c.capacity {
        smallest_exists(all.dom());
        let k = choose|k: u64| is_smallest(all.dom(), k);
        assert(is_smallest(all.dom(), k));
        assert(all.remove(k).dom() =~= all.dom().remove(k));
    }
}

/// What follows the `k`th of the ids beyond `after` are the ids beyond it.
proof fn ids_go_on(closed: Map<u64, SpanRecordModel>, after: u64, k: int)
    requires
        closed.dom().finite(),
        !closed.dom().contains(0),
        0 < k <= ids_after(closed, after).len(),
    ensures
        ids_after(closed, ids_after(closed, after)[k - 1]) == ids_after(closed, after).skip(k),
        closed.dom().contains(ids_after(closed, after)[k - 1]),
{
    let lt = key_order::<u64>();
    key_order_is_strict::<u64>();
    let set = closed.dom().filter(|id: u64| after == 0 || id > after);
    assert(set.finite()) by {
        closed.dom().lemma_len_filter(|id: u64| after == 0 || id > after);
    }
    finite_sets_are_listed(lt, set);
    let all = ids_after(closed, after);
    let last = all[k - 1];
    assert(all.to_set().contains(last));
    let rest = all.skip(k);
    assert(ascending(lt, rest)) by {
        assert forall|i: int, j: int| 0 <= i < j < rest.len() implies lt(
            #[trigger] rest[i],
            #[trigger] rest[j],
        ) by {
            assert(lt(all[i + k], all[j + k]));
        }
    }
    let beyond = closed.dom().filter(|id: u64| last == 0 || id > last);
    assert(rest.to_set() =~= beyond) by {
        assert forall|x: u64| rest.to_set().contains(x) == beyond.contains(x) by {
            if rest.contains(x) {
                let j = choose|j: int| 0 <= j < rest.len() && rest[j] == x;
                assert(lt(all[k - 1], all[j + k]));
                assert(all.to_set().contains(all[j + k]));
            }
            if beyond.contains(x) {
                assert(set.contains(x));
                assert(all.to_set().contains(x));
                let j = choose|j: int| 0 <= j < all.len() && all[j] == x;
                if j < k - 1 {
                    assert(lt(all[j], all[k - 1]));
                }
                assert(rest[j - k] == x);
            }
        }
    }
    ascending_is_listing(lt, rest);
}

/// Whoever goes on from the last span of a page misses none and sees none
/// twice: two pages are one larger page.
pub proof fn pages_go_on(closed: Map<u64, SpanRecordModel>, after: u64, n: nat, m: nat)
    requires
        closed.dom().finite(),
        !closed.dom().contains(0),
        forall|id: u64| #[trigger] closed.dom().contains(id) ==> closed[id].id == id,
        n > 0,
    ensures
        ({
            let first = page_of(closed, after, n);
            page_of(closed, after, n + m) == if first.len() == 0 {
                first
            } else {
                first + page_of(closed, first.last().id, m)
            }
        }),
{
    let ids = ids_after(closed, after);
    let first = page_of(closed, after, n);
    let k = if n < ids.len() {
        n as int
    } else {
        ids.len() as int
    };
    if k > 0 {
        ids_go_on(closed, after, k);
        let rest = ids_after(closed, ids[k - 1]);
        assert(first.last() == closed[ids[k - 1]]);
        assert(first.last().id == ids[k - 1]);
        let second = page_of(closed, ids[k - 1], m);
        let whole = page_of(closed, after, n + m);
        assert forall|i: int| 0 <= i < second.len() implies #[trigger] second[i] == whole[i
            + k] by {
            assert(rest[i] == ids[i + k]);
        }
        assert(whole =~= first + second);
    } else {
        assert(page_of(closed, after, n + m) =~= first);
    }
}

/// A large enough page holds every kept span beyond its start, and nothing
/// else.
pub proof fn pages_hold_what_is_kept(
    closed: Map<u64, SpanRecordModel>,
    after: u64,
    limit: nat,
    id: u64,
)
    requires
        closed.dom().finite(),
        limit >= closed.dom().len(),
        forall|id: u64| #[trigger] closed.dom().contains(id) ==> closed[id].id == id,
    ensures
        closed.dom().contains(id) && (after == 0 || id > after) ==> page_of(
            closed,
            after,
            limit,
        ).contains(closed[id]),
        forall|i: int|
            0 <= i < page_of(closed, after, limit).len() ==> {
                let span = #[trigger] page_of(closed, after, limit)[i];
                closed.dom().contains(span.id) && span == closed[span.id] && (after == 0 || span.id
                    > after)
            },
{
    let lt = key_order::<u64>();
    key_order_is_strict::<u64>();
    let wanted = |id: u64| after == 0 || id > after;
    let set = closed.dom().filter(wanted);
    closed.dom().lemma_len_filter(wanted);
    finite_sets_are_listed(lt, set);
    let ids = ids_after(closed, after);
    ids.unique_seq_to_set();
    let page = page_of(closed, after, limit);
    assert(page.len() == ids.len());
    assert forall|i: int| 0 <= i < page.len() implies {
        let span = #[trigger] page[i];
        closed.dom().contains(span.id) && span == closed[span.id] && (after == 0 || span.id > after)
    } by {
        assert(ids.to_set().contains(ids[i]));
        assert(set.contains(ids[i]));
    }
    if closed.dom().contains(id) && (after == 0 || id > after) {
        assert(set.contains(id));
        assert(ids.to_set().contains(id));
        let k = choose|k: int| 0 <= k < ids.len() && ids[k] == id;
        assert(page[k] == closed[id]);
    }
}

} // verus!
