//! What becomes of spans and events between the program that they come from
//! and those who look at them.

use vstd::prelude::*;

use crate::cache::config::CacheConfig;
use crate::cache::driver::{
    event_lost, event_parked, events_lost, events_parked, is_smallest, smallest_exists,
    spans_joined, MessageModel,
};
use crate::cache::ident::{id_slot, ids_tell_their_slot, lane_bits, lanes_with, slot_id, DISABLED};
use crate::cache::predicate::{AttributesModel, ParentOf};
use crate::cache::record::{
    fields_set, set_is_read_back, value_of, EventRecordModel, SpanRecordModel, ValueModel,
};
use crate::cache::slots::{recorded_in, LaneModel};
use crate::cache::store::{
    empty_cache, event_parent, event_record, events_freed, new_record, parent_for, slot_filled,
    slot_free, sound, span_closed, span_kept, span_opened, CacheModel, EventInModel,
};
use crate::cache::thread::{id_taken, ThreadModel};
use crate::protocol::Text;

verus! {

/// The last value under a name stands at `i`.
pub open spec fn named_last(values: Seq<(Text, ValueModel)>, name: Text, i: int) -> bool {
    &&& 0 <= i < values.len()
    &&& values[i].0 == name
    &&& forall|j: int| i < j < values.len() ==> (#[trigger] values[j]).0 != name
}

/// No value is under the name.
pub open spec fn unnamed(values: Seq<(Text, ValueModel)>, name: Text) -> bool {
    forall|j: int| 0 <= j < values.len() ==> (#[trigger] values[j]).0 != name
}

/// Of several values under one name the last is kept, and what is under no
/// new value stays as it was.
pub proof fn the_last_value_is_kept(
    fields: Seq<(Text, ValueModel)>,
    values: Seq<(Text, ValueModel)>,
    name: Text,
    i: int,
)
    ensures
        named_last(values, name, i) ==> value_of(fields_set(fields, values), name) == Some(
            values[i].1,
        ),
        unnamed(values, name) ==> value_of(fields_set(fields, values), name) == value_of(
            fields,
            name,
        ),
    decreases values.len(),
{
    if values.len() > 0 {
        let front = values.drop_last();
        let before = fields_set(fields, front);
        set_is_read_back(before, values.last().0, values.last().1, name);
        the_last_value_is_kept(fields, front, name, i);
        if named_last(values, name, i) && i < front.len() {
            assert(values[values.len() - 1].0 != name);
            assert forall|j: int| i < j < front.len() implies (#[trigger] front[j]).0 != name by {
                assert(values[j].0 != name);
            }
            assert(named_last(front, name, i));
        }
        if unnamed(values, name) {
            assert(values[values.len() - 1].0 != name);
            assert forall|j: int| 0 <= j < front.len() implies (#[trigger] front[j]).0 != name by {
                assert(values[j].0 != name);
            }
        }
    }
}

/// Nothing is under a name where there are no fields.
proof fn no_fields_no_values(name: Text)
    ensures
        value_of(Seq::empty(), name) is None,
{
}

/// The record of a span says what the span was opened with: where and when,
/// and the last value for each of the names given to it. It has no events yet
/// and is not closed.
pub proof fn a_span_is_recorded_as_announced(
    id: u64,
    parent: Option<u64>,
    span: AttributesModel,
    now: u64,
    name: Text,
    i: int,
)
    ensures
        ({
            let record = new_record(id, parent, span, now);
            &&& record.id == id
            &&& record.parent_id == parent
            &&& record.metadata == span.metadata
            &&& record.opened_at == now
            &&& record.closed_at is None
            &&& record.events.len() == 0
            &&& named_last(span.fields, name, i) ==> value_of(record.fields, name) == Some(
                span.fields[i].1,
            )
            &&& unnamed(span.fields, name) ==> value_of(record.fields, name) is None
        }),
{
    the_last_value_is_kept(Seq::empty(), span.fields, name, i);
    no_fields_no_values(name);
}

/// The record of an event says what the event came with: what it is, when it
/// was, and the last value for each of its names.
pub proof fn an_event_is_recorded_as_announced(
    e: EventInModel,
    now: u64,
    home: usize,
    name: Text,
    i: int,
)
    ensures
        ({
            let record = event_record(e, now, home);
            &&& record.metadata == Some(e.metadata)
            &&& record.recorded_at == Some(now)
            &&& record.home == Some(home)
            &&& named_last(e.fields, name, i) ==> value_of(record.fields, name) == Some(
                e.fields[i].1,
            )
            &&& unnamed(e.fields, name) ==> value_of(record.fields, name) is None
        }),
{
    the_last_value_is_kept(Seq::empty(), e.fields, name, i);
    no_fields_no_values(name);
}

/// A span that is recorded stands in a slot of its thread's lane under the id
/// that was given out for it, and hangs on the span that it was opened in: on
/// the innermost one entered, on the one named, or on none where it is a root
/// and none is entered. Nothing else in the cache changes but the ids that
/// are set aside.
pub proof fn an_opened_span_is_in_flight(
    c: CacheModel,
    t: ThreadModel,
    span: AttributesModel,
    now: u64,
    c1: CacheModel,
    t1: ThreadModel,
    id: u64,
)
    requires
        sound(c),
        span_opened(c, t, span, true, now, c1, t1, id),
        id != DISABLED,
    ensures
        id_slot(c.bits, id) is Some,
        ({
            let (shard, slot) = id_slot(c.bits, id)->0;
            let record = c1.lanes[shard].spans[slot];
            &&& shard == c.lane_of(t)
            &&& !c.lanes[shard].spans.dom().contains(slot)
            &&& c1.lanes[shard].spans.dom() == c.lanes[shard].spans.dom().insert(slot)
            &&& forall|k: int|
                c.lanes[shard].spans.dom().contains(k) ==> #[trigger] c1.lanes[shard].spans[k]
                    == c.lanes[shard].spans[k]
            &&& c1.lanes.len() == c.lanes.len()
            &&& forall|l: int|
                0 <= l < c.lanes.len() && l != shard ==> #[trigger] c1.lanes[l] == c.lanes[l]
            &&& c1.closed == c.closed
            &&& c1.capacity == c.capacity
            &&& c1.actual_id(id) == Some(record.id)
            &&& record.metadata == span.metadata
            &&& record.opened_at == now
            &&& record.closed_at is None
            &&& match span.parent {
                ParentOf::Root => record.parent_id is None && t.stack.len() == 0,
                ParentOf::Context => {
                    &&& t.stack.len() > 0
                    &&& t.stack.last().tracing_id != DISABLED
                    &&& record.parent_id == Some(t.stack.last().actual_id)
                },
                ParentOf::Explicit(p) => record.parent_id is Some && record.parent_id
                    == c.actual_id(p),
            }
            &&& t1.stack == t.stack
            &&& t1.spans == t.spans
            &&& t1.events == t.events
            &&& t1.shard_key == t.shard_key
        }),
{
    let shard = c.lane_of(t);
    let (actual, water, cursor) = id_taken(c.id_high_water, t.id_cursor);
    let taken = CacheModel { id_high_water: water, ..c };
    let parent = parent_for(c, t, span.parent)->0;
    let slot = choose|slot: int| #[trigger]
        slot_free(c, shard, slot) && id == slot_id(c.bits, shard, slot) && c1 == slot_filled(
            taken,
            shard,
            slot,
            new_record(actual, parent, span, now),
        );
    assert(slot_free(c, shard, slot));
    assert(0 <= shard < lanes_with(c.bits));
    ids_tell_their_slot(c.bits, shard, slot);
    assert(c1.lanes[shard].spans.dom() =~= c.lanes[shard].spans.dom().insert(slot));
}

/// An event belongs to the span that it names, or else to the innermost one
/// entered; outside of all recorded spans it is dropped.
pub proof fn events_belong_to_their_span(c: CacheModel, t: ThreadModel, e: EventInModel)
    ensures
        e.parent is Some ==> event_parent(c, t, e) == c.actual_id(e.parent->0),
        e.parent is None && t.stack.len() > 0 && t.stack.last().tracing_id != DISABLED
            ==> event_parent(c, t, e) == Some(t.stack.last().actual_id),
        e.parent is None && (t.stack.len() == 0 || t.stack.last().tracing_id == DISABLED)
            ==> event_parent(c, t, e) is None,
{
}

/// Values that are recorded for an open span are read from it, the last of
/// them under each name; its other fields, all else that it says, and all
/// other spans stay as they were.
pub proof fn values_reach_their_span(
    lane: LaneModel,
    slot: int,
    values: Seq<(Text, ValueModel)>,
    name: Text,
    i: int,
)
    requires
        lane.spans.dom().contains(slot),
    ensures
        ({
            let after = recorded_in(lane, slot, values);
            let (was, is) = (lane.spans[slot], after.spans[slot]);
            &&& after.spans.dom() == lane.spans.dom()
            &&& after.last_ids == lane.last_ids
            &&& forall|k: int|
                k != slot && lane.spans.dom().contains(k) ==> #[trigger] after.spans[k]
                    == lane.spans[k]
            &&& is == SpanRecordModel { fields: is.fields, ..was }
            &&& named_last(values, name, i) ==> value_of(is.fields, name) == Some(values[i].1)
            &&& unnamed(values, name) ==> value_of(is.fields, name) == value_of(was.fields, name)
        }),
{
    the_last_value_is_kept(lane.spans[slot].fields, values, name, i);
    assert(recorded_in(lane, slot, values).spans.dom() =~= lane.spans.dom());
}

/// The events for one span, out of a batch and in its order.
pub open spec fn events_for(batch: Seq<MessageModel>, id: u64) -> Seq<EventRecordModel> {
    batch.filter(|m: MessageModel| m.parent == id).map_values(|m: MessageModel| m.record)
}

/// The events that wait for a span.
pub open spec fn waiting_events(side: Map<u64, Seq<EventRecordModel>>, id: u64) -> Seq<
    EventRecordModel,
> {
    if side.dom().contains(id) {
        side[id]
    } else {
        Seq::empty()
    }
}

proof fn one_more_event(batch: Seq<MessageModel>, id: u64)
    requires
        batch.len() > 0,
    ensures
        events_for(batch, id) == if batch.last().parent == id {
            events_for(batch.drop_last(), id).push(batch.last().record)
        } else {
            events_for(batch.drop_last(), id)
        },
{
    let wanted = |m: MessageModel| m.parent == id;
    reveal(Seq::filter);
    let rest = batch.drop_last().filter(wanted);
    if batch.last().parent == id {
        assert(batch.filter(wanted) == rest.push(batch.last()));
        assert(events_for(batch, id) =~= events_for(batch.drop_last(), id).push(
            batch.last().record,
        ));
    }
}

/// As long as there is room, every event waits for its span behind those that
/// came before it, and none is lost.
pub proof fn events_wait_in_order(
    side: Map<u64, Seq<EventRecordModel>>,
    capacity: nat,
    batch: Seq<MessageModel>,
    id: u64,
)
    requires
        side.dom().finite(),
        side.dom().len() + batch.len() <= capacity,
    ensures
        waiting_events(events_parked(side, capacity, batch), id) == waiting_events(side, id)
            + events_for(batch, id),
        events_lost(side, capacity, batch).len() == 0,
        events_parked(side, capacity, batch).dom().finite(),
        events_parked(side, capacity, batch).dom().len() <= side.dom().len() + batch.len(),
    decreases batch.len(),
{
    if batch.len() == 0 {
        reveal(Seq::filter);
        assert(events_for(batch, id) =~= Seq::empty());
        assert(waiting_events(side, id) + events_for(batch, id) =~= waiting_events(side, id));
    } else {
        let front = batch.drop_last();
        events_wait_in_order(side, capacity, front, id);
        one_more_event(batch, id);
        let before = events_parked(side, capacity, front);
        let m = batch.last();
        assert(waiting_events(event_parked(before, capacity, m), id) == if m.parent == id {
            waiting_events(before, id).push(m.record)
        } else {
            waiting_events(before, id)
        }) by {
            if m.parent == id && !before.dom().contains(id) {
                assert(seq![m.record] =~= Seq::<EventRecordModel>::empty().push(m.record));
            }
        }
        assert(waiting_events(events_parked(side, capacity, batch), id) =~= waiting_events(side, id)
            + events_for(batch, id));
        assert(event_lost(before, capacity, m).len() == 0);
        assert(events_lost(side, capacity, batch) =~= Seq::empty());
    }
}

/// Where an event finds no room, the events of one span go, those of the
/// smallest id, and are handed back; what waits for others stays. Otherwise
/// nothing goes.
pub proof fn the_oldest_makes_room(
    side: Map<u64, Seq<EventRecordModel>>,
    capacity: nat,
    m: MessageModel,
    id: u64,
)
    requires
        id != m.parent,
        side.dom().contains(id),
    ensures
        ({
            let after = event_parked(side, capacity, m);
            let full = !side.dom().contains(m.parent) && side.dom().len() >= capacity;
            let oldest = forall|k: u64| #[trigger] side.dom().contains(k) ==> id <= k;
            &&& full && oldest ==> !after.dom().contains(id) && event_lost(side, capacity, m)
                == side[id]
            &&& !full || !oldest ==> after.dom().contains(id) && after[id] == side[id]
            &&& !full ==> event_lost(side, capacity, m).len() == 0
            &&& after.dom().contains(m.parent) && after[m.parent].last() == m.record
        }),
{
    let oldest = forall|k: u64| #[trigger] side.dom().contains(k) ==> id <= k;
    if oldest {
        assert(is_smallest(side.dom(), id));
    }
    if exists|k: u64| is_smallest(side.dom(), k) {
        let s = choose|k: u64| is_smallest(side.dom(), k);
        assert(is_smallest(side.dom(), s));
        if s == id {
            assert(forall|k: u64| #[trigger] side.dom().contains(k) ==> id <= k);
        }
        if oldest {
            assert(id <= s && s <= id);
        }
    }
}

/// Every span of a batch goes out, in the order of the batch and as it is but
/// for the events that waited for it: they follow its own. Nothing waits for
/// it any longer, and what waits for other spans stays.
pub proof fn spans_take_their_events_along(
    side: Map<u64, Seq<EventRecordModel>>,
    batch: Seq<SpanRecordModel>,
    i: int,
    id: u64,
)
    requires
        0 <= i < batch.len(),
    ensures
        ({
            let (left, out) = spans_joined(side, batch);
            let first = forall|j: int| 0 <= j < i ==> (#[trigger] batch[j]).id != batch[i].id;
            &&& out.len() == batch.len()
            &&& out[i] == SpanRecordModel { events: out[i].events, ..batch[i] }
            &&& first ==> out[i].events == batch[i].events + waiting_events(side, batch[i].id)
            &&& !first ==> out[i].events == batch[i].events
            &&& !left.dom().contains(batch[i].id)
            &&& (forall|j: int| 0 <= j < batch.len() ==> (#[trigger] batch[j]).id != id)
                ==> waiting_events(left, id) == waiting_events(side, id)
        }),
    decreases batch.len(),
{
    let front = batch.drop_last();
    let last = batch.last();
    let (before, out) = spans_joined(side, front);
    if i < front.len() {
        spans_take_their_events_along(side, front, i, id);
        assert(front[i] == batch[i]);
        let first = forall|j: int| 0 <= j < i ==> (#[trigger] batch[j]).id != batch[i].id;
        if first {
            assert forall|j: int| 0 <= j < i implies (#[trigger] front[j]).id != front[i].id by {
                assert(batch[j].id != batch[i].id);
            }
        } else {
            let j = choose|j: int| 0 <= j < i && (#[trigger] batch[j]).id == batch[i].id;
            assert(front[j].id == front[i].id);
        }
    } else {
        joined_so_far(side, front, last.id);
        let first = forall|j: int| 0 <= j < i ==> (#[trigger] batch[j]).id != batch[i].id;
        if first {
            assert forall|j: int| 0 <= j < front.len() implies (#[trigger] front[j]).id
                != last.id by {
                assert(batch[j].id != batch[i].id);
            }
            if !before.dom().contains(last.id) {
                assert(last.events + Seq::<EventRecordModel>::empty() =~= last.events);
            }
        } else {
            let j = choose|j: int| 0 <= j < i && (#[trigger] batch[j]).id == batch[i].id;
            assert(front[j].id == last.id);
        }
    }
    if forall|j: int| 0 <= j < batch.len() ==> (#[trigger] batch[j]).id != id {
        assert forall|j: int| 0 <= j < front.len() implies (#[trigger] front[j]).id != id by {
            assert(batch[j].id != id);
        }
        assert(batch[batch.len() - 1].id != id);
        joined_so_far(side, front, id);
    }
}

/// What waits for a span after some spans have gone out.
proof fn joined_so_far(
    side: Map<u64, Seq<EventRecordModel>>,
    batch: Seq<SpanRecordModel>,
    id: u64,
)
    ensures
        spans_joined(side, batch).1.len() == batch.len(),
        (exists|j: int| 0 <= j < batch.len() && (#[trigger] batch[j]).id == id) ==> !spans_joined(
            side,
            batch,
        ).0.dom().contains(id),
        !(exists|j: int| 0 <= j < batch.len() && (#[trigger] batch[j]).id == id) ==> {
            let left = spans_joined(side, batch).0;
            &&& left.dom().contains(id) == side.dom().contains(id)
            &&& side.dom().contains(id) ==> left[id] == side[id]
        },
    decreases batch.len(),
{
    if batch.len() > 0 {
        let front = batch.drop_last();
        joined_so_far(side, front, id);
        if exists|j: int| 0 <= j < front.len() && (#[trigger] front[j]).id == id {
            let j = choose|j: int| 0 <= j < front.len() && (#[trigger] front[j]).id == id;
            assert(batch[j].id == id);
        }
        if batch.last().id == id {
            assert(batch[batch.len() - 1].id == id);
        } else if exists|j: int| 0 <= j < batch.len() && (#[trigger] batch[j]).id == id {
            let j = choose|j: int| 0 <= j < batch.len() && (#[trigger] batch[j]).id == id;
            assert(front[j].id == id);
        }
    }
}

/// A closed span is kept as it is, and those that are kept already stay as
/// they are.
pub proof fn kept_spans_stay_as_they_are(c: CacheModel, record: SpanRecordModel, id: u64)
    ensures
        ({
            let after = span_kept(c, record);
            &&& after.closed.dom().contains(id) && id == record.id ==> after.closed[id] == record
            &&& after.closed.dom().contains(id) && id != record.id ==> c.closed.dom().contains(id)
                && after.closed[id] == c.closed[id]
            &&& after.lanes == c.lanes
            &&& after.id_high_water == c.id_high_water
            &&& after.capacity == c.capacity
        }),
{
}

/// The lanes of a cache have slots for as many open spans as it is made for,
/// and for fewer than one more in each lane.
pub proof fn lanes_have_slots_for_all(capacity: nat, config: CacheConfig)
    ensures
        ({
            let c = empty_cache(capacity, config);
            let n = c.lanes.len();
            &&& n > 0
            &&& n * c.shard_capacity >= capacity
            &&& n * c.shard_capacity < capacity + n
            &&& c.capacity == capacity
            &&& c.closed.dom() == Set::<u64>::empty()
            &&& forall|i: int|
                0 <= i < n ==> (#[trigger] c.lanes[i]).spans.dom() == Set::<int>::empty()
                    && c.lanes[i].last_ids.len() == c.shard_capacity
        }),
{
    let c = empty_cache(capacity, config);
    let n = lanes_with(lane_bits(config.lane_count as int));
    let cap = capacity as int;
    let q = (cap + n - 1) / n;
    assert(n * q >= cap && n * q < cap + n && q >= 0) by (nonlinear_arith)
        requires
            q == (cap + n - 1) / n,
            n > 0,
            cap >= 0,
    ;
    assert(c.closed.dom() =~= Set::<u64>::empty());
    assert forall|i: int| 0 <= i < n implies (#[trigger] c.lanes[i]).spans.dom() == Set::<
        int,
    >::empty() && c.lanes[i].last_ids.len() == c.shard_capacity by {
        assert(c.lanes[i].spans.dom() =~= Set::<int>::empty());
    }
}

/// A span that goes because another one is kept hands its events back, and so
/// does one whose id is taken by the new one. Where neither happens, none are
/// handed back.
pub proof fn events_are_handed_back(c: CacheModel, record: SpanRecordModel)
    requires
        c.closed.dom().finite(),
    ensures
        ({
            let freed = events_freed(c, record);
            let again = c.closed.dom().contains(record.id);
            let full = c.closed.dom().len() >= c.capacity;
            &&& !again && !full ==> freed.len() == 0
            &&& again && c.closed.dom().len() <= c.capacity ==> freed == c.closed[record.id].events
            &&& !again && full ==> exists|id: u64|
                #![trigger c.closed.dom().contains(id)]
                {
                    &&& id == record.id || c.closed.dom().contains(id)
                    &&& !span_kept(c, record).closed.dom().contains(id)
                    &&& freed == if id == record.id {
                        record.events
                    } else {
                        c.closed[id].events
                    }
                }
        }),
{
    let all = c.closed.insert(record.id, record);
    let freed = events_freed(c, record);
    if c.closed.dom().contains(record.id) {
        assert(all.dom() =~= c.closed.dom());
        if c.closed.dom().len() <= c.capacity {
            assert(freed =~= c.closed[record.id].events);
        }
    } else {
        assert(all.dom() =~= c.closed.dom().insert(record.id));
        if c.closed.dom().len() >= c.capacity {
            smallest_exists(all.dom());
            let id = choose|id: u64| is_smallest(all.dom(), id);
            assert(is_smallest(all.dom(), id));
            assert(freed =~= all[id].events);
            assert(!span_kept(c, record).closed.dom().contains(id));
            assert(id == record.id || c.closed.dom().contains(id));
        } else {
            assert(freed =~= Seq::empty());
        }
    }
}

/// A span that is not to be recorded, because the predicate says so or
/// because there is nothing to hang it on, changes nothing and gets the id of
/// spans that are not recorded. One that finds no slot in its lane gets that
/// id too, and no span in the cache changes.
pub proof fn spans_left_out_change_nothing(
    c: CacheModel,
    t: ThreadModel,
    span: AttributesModel,
    answer: bool,
    now: u64,
    c1: CacheModel,
    t1: ThreadModel,
    id: u64,
)
    requires
        span_opened(c, t, span, answer, now, c1, t1, id),
    ensures
        !answer ==> id == DISABLED && c1 == c && t1 == t,
        span.parent is Context && t.stack.len() == 0 ==> id == DISABLED && c1 == c && t1 == t,
        span.parent is Root && t.stack.len() > 0 ==> id == DISABLED && c1 == c && t1 == t,
        c.lanes[c.lane_of(t)].spans.dom().len() >= c.shard_capacity ==> id == DISABLED && c1.lanes
            == c.lanes && c1.closed == c.closed && t1.stack == t.stack,
{
}

/// The id of an open span leads to it: closing it takes it out of its slot
/// and hands it over as it is, closed at that time. An id whose slot is empty
/// closes nothing.
pub proof fn ids_lead_to_the_span_in_their_slot(
    c: CacheModel,
    t: ThreadModel,
    id: u64,
    now: u64,
)
    requires
        id_slot(c.bits, id) is Some,
    ensures
        ({
            let (shard, slot) = id_slot(c.bits, id)->0;
            let open = c.lanes[shard].spans.dom().contains(slot);
            let (c1, t1, was_open) = span_closed(c, t, id, now);
            &&& was_open == open
            &&& !open ==> c1 == c && t1 == t
            &&& c.actual_id(id) == Some(c.lanes[shard].last_ids[slot])
            &&& open && 0 <= shard < c.lanes.len() ==> {
                &&& !c1.lanes[shard].spans.dom().contains(slot)
                &&& t1.spans.len() == t.spans.len() + 1
                &&& t1.spans.last().closed_at == Some(now)
                &&& t1.spans.last().id == c.lanes[shard].spans[slot].id
                &&& t1.spans.last().fields == c.lanes[shard].spans[slot].fields
                &&& t1.spans.last().events == c.lanes[shard].spans[slot].events
                &&& t1.spans.last().opened_at == c.lanes[shard].spans[slot].opened_at
                &&& t1.spans.last().metadata == c.lanes[shard].spans[slot].metadata
                &&& t1.spans.last().parent_id == c.lanes[shard].spans[slot].parent_id
            }
        }),
{
}

} // verus!
