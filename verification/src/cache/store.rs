//! The cache of spans: open ones in their slots, closed ones on their way to
//! whoever watches or kept to be paged through.

use tracing::span::Id;
use vstd::prelude::*;

use crate::cache::config::CacheConfig;
use crate::cache::driver::{
    first_is_smallest, is_smallest, messages_model, records_model, Driver, DriverModel, EventMessage, MessageModel,
};
use crate::cache::ident::{
    id_number, id_slot, id_to_u64, lane_bits, lanes_with, slot_id, u64_to_id, Lanes, DISABLED,
};
use crate::cache::pool::{next_power, ObjectPool, Pool, ReuseRef};
use crate::cache::predicate::{
    Attributes, AttributesModel, EnabledPredicate, Interest, LevelPredicate, ParentOf,
};
use crate::cache::record::{
    events_model, fields_set, set_fields, values_model, EventRecord, EventRecordModel, FieldList, MetaModel,
    Metadata, SpanRecord, SpanRecordModel, ValueModel,
};
use crate::cache::slots::{
    empty_lane, has_room, recorded_in, LaneModel, ShardLane, MAX_SLOTS,
};
use crate::cache::thread::{id_taken, ids_left, StackedSpan, ThreadModel, ThreadState, ID_BATCH};
use crate::order::key_order;
use crate::protocol::{Text, WireLevel, WireLevelFilter};
use crate::sorted::{listing, SortedMap};

verus! {

/// How many event records wait for use in each lane.
pub const POOLED_EVENTS: usize = 256;

/// How many event records wait for use after `n` more were handed back.
pub open spec fn pooled_after(waiting: nat, n: nat) -> nat {
    if waiting + n > POOLED_EVENTS {
        POOLED_EVENTS as nat
    } else {
        waiting + n
    }
}

/// The shard of the pool from which a thread with the given key takes.
pub open spec fn shard_for(pooled: Seq<nat>, key: u64) -> int {
    key as int % pooled.len() as int
}

/// How many event records wait after one was taken from a shard. Where none
/// waits there, a new one is made.
pub open spec fn one_taken(pooled: Seq<nat>, at: int) -> Seq<nat> {
    pooled.update(
        at,
        if pooled[at] > 0 {
            (pooled[at] - 1) as nat
        } else {
            0
        },
    )
}

/// How many of some event records go back to the given shard.
pub open spec fn homes_at(events: Seq<EventRecordModel>, at: int) -> nat
    decreases events.len(),
{
    if events.len() == 0 {
        0
    } else {
        homes_at(events.drop_last(), at) + if events.last().home is Some
            && events.last().home->0 == at {
            1nat
        } else {
            0
        }
    }
}

/// How many event records wait in each shard after some have gone back, each
/// to the shard it came from, as far as there is room.
pub open spec fn recycled(pooled: Seq<nat>, events: Seq<EventRecordModel>) -> Seq<nat> {
    Seq::new(pooled.len(), |i: int| pooled_after(pooled[i], homes_at(events, i)))
}

/// No shard holds more than it may.
pub open spec fn within_room(pooled: Seq<nat>) -> bool {
    forall|i: int| 0 <= i < pooled.len() ==> (#[trigger] pooled[i]) <= POOLED_EVENTS
}

proof fn homes_of_sum(a: Seq<EventRecordModel>, b: Seq<EventRecordModel>, at: int)
    ensures
        homes_at(a + b, at) == homes_at(a, at) + homes_at(b, at),
    decreases b.len(),
{
    if b.len() == 0 {
        assert(a + b =~= a);
    } else {
        assert((a + b).drop_last() =~= a + b.drop_last());
        homes_of_sum(a, b.drop_last(), at);
    }
}

/// Records that go back one after the other go back together, and it is the
/// same which go first.
pub proof fn recycled_in_turn(
    pooled: Seq<nat>,
    a: Seq<EventRecordModel>,
    b: Seq<EventRecordModel>,
)
    requires
        within_room(pooled),
    ensures
        recycled(recycled(pooled, a), b) == recycled(pooled, a + b),
        recycled(pooled, a + b) == recycled(pooled, b + a),
        within_room(recycled(pooled, a)),
{
    assert forall|i: int| 0 <= i < pooled.len() implies recycled(recycled(pooled, a), b)[i]
        == #[trigger] recycled(pooled, a + b)[i] && recycled(pooled, a + b)[i] == recycled(
        pooled,
        b + a,
    )[i] by {
        homes_of_sum(a, b, i);
        homes_of_sum(b, a, i);
    }
    assert(recycled(recycled(pooled, a), b) =~= recycled(pooled, a + b));
    assert(recycled(pooled, a + b) =~= recycled(pooled, b + a));
}

/// Nothing that goes back changes nothing.
proof fn nothing_recycled(pooled: Seq<nat>)
    requires
        within_room(pooled),
    ensures
        recycled(pooled, Seq::empty()) == pooled,
{
    assert(recycled(pooled, Seq::empty()) =~= pooled);
}

/// A record that was taken from a shard where one waited, and goes back,
/// leaves the pool as it was.
pub proof fn a_record_comes_home(pooled: Seq<nat>, at: int, event: EventRecordModel)
    requires
        within_room(pooled),
        0 <= at < pooled.len(),
        pooled[at] > 0,
        event.home is Some,
        event.home->0 == at,
    ensures
        recycled(one_taken(pooled, at), seq![event]) == pooled,
{
    let one = seq![event];
    assert(one.drop_last() =~= Seq::empty());
    assert forall|i: int| homes_at(one, i) == if i == at {
        1nat
    } else {
        0
    } by {
        reveal_with_fuel(homes_at, 2);
    }
    assert(recycled(one_taken(pooled, at), one) =~= pooled);
}

/// The events of the closed spans with some ids.
pub open spec fn events_of(closed: Map<u64, SpanRecordModel>, ids: Seq<u64>) -> Seq<
    EventRecordModel,
>
    decreases ids.len(),
{
    if ids.len() == 0 {
        Seq::empty()
    } else {
        closed[ids[0]].events + events_of(closed, ids.skip(1))
    }
}

/// The events of the spans that go when one more is kept: of the one that
/// had its id, and of the oldest where there are too many.
pub open spec fn events_freed(c: CacheModel, record: SpanRecordModel) -> Seq<EventRecordModel> {
    (if c.closed.dom().contains(record.id) {
        c.closed[record.id].events
    } else {
        Seq::empty()
    }) + (match span_dropped(c, record) {
        Some(gone) => gone.events,
        None => Seq::empty(),
    })
}

/// An event as it happens.
pub struct Event {
    /// The span it was given to, if that is not the entered one.
    pub parent: Option<u64>,
    pub metadata: Metadata,
    pub fields: FieldList,
}

pub ghost struct EventInModel {
    pub parent: Option<u64>,
    pub metadata: MetaModel,
    pub fields: Seq<(Text, ValueModel)>,
}

impl View for Event {
    type V = EventInModel;

    open spec fn view(&self) -> EventInModel {
        EventInModel {
            parent: self.parent,
            metadata: self.metadata@,
            fields: values_model(self.fields@),
        }
    }
}

/// Holds spans: the open ones in slots, spread over lanes, the closed ones by
/// id.
pub struct SpanCache<P: EnabledPredicate> {
    lanes: Lanes,
    in_flight: Vec<ShardLane>,
    /// The closed spans that are kept.
    map: SortedMap<u64, SpanRecord>,
    /// No span id from here on was set aside yet.
    id_high_water: u64,
    predicate: P,
    capacity: usize,
    shard_capacity: usize,
    pending_batch: usize,
    event_pool: ObjectPool<EventRecord>,
}

pub ghost struct CacheModel {
    pub bits: int,
    pub lanes: Seq<LaneModel>,
    pub closed: Map<u64, SpanRecordModel>,
    pub id_high_water: u64,
    pub capacity: nat,
    pub shard_capacity: nat,
    pub pending_batch: nat,
}

pub open spec fn closed_model(map: Map<u64, SpanRecord>) -> Map<u64, SpanRecordModel> {
    map.map_values(|r: SpanRecord| r@)
}

pub open spec fn lanes_model(lanes: Seq<ShardLane>) -> Seq<LaneModel> {
    lanes.map_values(|l: ShardLane| l@)
}

impl<P: EnabledPredicate> View for SpanCache<P> {
    type V = CacheModel;

    closed spec fn view(&self) -> CacheModel {
        CacheModel {
            bits: self.lanes.bits(),
            lanes: lanes_model(self.in_flight@),
            closed: closed_model(self.map@),
            id_high_water: self.id_high_water,
            capacity: self.capacity as nat,
            shard_capacity: self.shard_capacity as nat,
            pending_batch: self.pending_batch as nat,
        }
    }
}

/// How many slots each of `n` lanes has.
pub open spec fn slots_per_lane(capacity: int, n: int) -> int {
    (capacity + n - 1) / n
}

/// A cache that was never used.
pub open spec fn empty_cache(capacity: nat, config: CacheConfig) -> CacheModel {
    let bits = lane_bits(config.lane_count as int);
    let slots = slots_per_lane(capacity as int, lanes_with(bits)) as nat;
    CacheModel {
        bits,
        lanes: Seq::new(lanes_with(bits) as nat, |i: int| empty_lane(slots)),
        closed: Map::empty(),
        id_high_water: ID_BATCH,
        capacity,
        shard_capacity: slots,
        pending_batch: config.pending_batch as nat,
    }
}

impl CacheModel {
    /// The id under which the span with the given `tracing` id is recorded,
    /// if that id tells a slot.
    pub open spec fn actual_id(self, id: u64) -> Option<u64> {
        match id_slot(self.bits, id) {
            Some((shard, slot)) => Some(self.lanes[shard].last_ids[slot]),
            None => None,
        }
    }

    /// The id tells no slot, or one that there is.
    pub open spec fn knows(self, id: u64) -> bool {
        match id_slot(self.bits, id) {
            Some((shard, slot)) => slot < self.shard_capacity,
            None => true,
        }
    }

    /// The lane of a thread.
    pub open spec fn lane_of(self, t: ThreadModel) -> int {
        t.shard_key as int % lanes_with(self.bits)
    }
}

/// What a new span hangs on: the id of its parent, if it has one. `None` where
/// the span is not recorded, because its parent is not, because there is no
/// span to hang it on, or because a root would begin within another span.
pub open spec fn parent_for(
    c: CacheModel,
    t: ThreadModel,
    parent: ParentOf,
) -> Option<Option<u64>> {
    match parent {
        ParentOf::Context => match t.top() {
            Some(top) => if top.tracing_id == DISABLED {
                None
            } else {
                Some(Some(top.actual_id))
            },
            None => None,
        },
        ParentOf::Root => if t.top() is Some {
            None
        } else {
            Some(None)
        },
        ParentOf::Explicit(id) => match c.actual_id(id) {
            Some(actual) => Some(Some(actual)),
            None => None,
        },
    }
}

/// The record of a new span.
pub open spec fn new_record(
    id: u64,
    parent: Option<u64>,
    span: AttributesModel,
    now: u64,
) -> SpanRecordModel {
    SpanRecordModel {
        id,
        parent_id: parent,
        metadata: span.metadata,
        fields: fields_set(Seq::empty(), span.fields),
        events: Seq::empty(),
        opened_at: now,
        closed_at: None,
    }
}

/// A span put into a slot.
pub open spec fn slot_filled(
    c: CacheModel,
    shard: int,
    slot: int,
    record: SpanRecordModel,
) -> CacheModel {
    CacheModel {
        lanes: c.lanes.update(
            shard,
            LaneModel {
                spans: c.lanes[shard].spans.insert(slot, record),
                last_ids: c.lanes[shard].last_ids.update(slot, record.id),
            },
        ),
        ..c
    }
}

/// The slot is there and free.
pub open spec fn slot_free(c: CacheModel, shard: int, slot: int) -> bool {
    0 <= slot < c.shard_capacity && !c.lanes[shard].spans.dom().contains(slot)
}

/// What holds of the lanes of every cache.
pub open spec fn sound(c: CacheModel) -> bool {
    &&& 0 <= c.bits <= 8
    &&& c.lanes.len() == lanes_with(c.bits)
    &&& c.shard_capacity <= MAX_SLOTS
    &&& forall|i: int|
        0 <= i < c.lanes.len() ==> (#[trigger] c.lanes[i]).last_ids.len() == c.shard_capacity
}

/// What opening a span does, where the predicate has answered. A span that is
/// not recorded gets the id that says so. A recorded one gets an id of its
/// own and a free slot in the lane of the thread.
pub open spec fn span_opened(
    c: CacheModel,
    t: ThreadModel,
    span: AttributesModel,
    answer: bool,
    now: u64,
    c2: CacheModel,
    t2: ThreadModel,
    id: u64,
) -> bool {
    match parent_for(c, t, span.parent) {
        None => c2 == c && t2 == t && id == DISABLED,
        Some(parent) => if !answer {
            c2 == c && t2 == t && id == DISABLED
        } else {
            let (actual, water, cursor) = id_taken(c.id_high_water, t.id_cursor);
            let taken = CacheModel { id_high_water: water, ..c };
            let shard = c.lane_of(t);
            &&& t2 == ThreadModel { id_cursor: cursor, ..t }
            &&& if c.lanes[shard].spans.dom().len() >= c.shard_capacity {
                c2 == taken && id == DISABLED
            } else {
                exists|slot: int| #[trigger]
                    slot_free(c, shard, slot) && id == slot_id(c.bits, shard, slot) && c2
                        == slot_filled(
                        taken,
                        shard,
                        slot,
                        new_record(actual, parent, span, now),
                    )
            }
        },
    }
}

/// The span to which an event belongs. `None` where it is dropped.
pub open spec fn event_parent(c: CacheModel, t: ThreadModel, e: EventInModel) -> Option<u64> {
    match e.parent {
        Some(id) => c.actual_id(id),
        None => match t.top() {
            Some(top) => if top.tracing_id == DISABLED {
                None
            } else {
                Some(top.actual_id)
            },
            None => None,
        },
    }
}

/// The record of an event, out of the given shard of the pool.
pub open spec fn event_record(e: EventInModel, now: u64, home: usize) -> EventRecordModel {
    EventRecordModel {
        metadata: Some(e.metadata),
        fields: fields_set(Seq::empty(), e.fields),
        recorded_at: Some(now),
        home: Some(home),
    }
}

/// What closing a span does: it leaves its slot and waits to be sent.
pub open spec fn span_closed(
    c: CacheModel,
    t: ThreadModel,
    id: u64,
    now: u64,
) -> (CacheModel, ThreadModel, bool) {
    match id_slot(c.bits, id) {
        Some((shard, slot)) => if c.lanes[shard].spans.dom().contains(slot) {
            let record = c.lanes[shard].spans[slot];
            (
                CacheModel {
                    lanes: c.lanes.update(
                        shard,
                        LaneModel {
                            spans: c.lanes[shard].spans.remove(slot),
                            ..c.lanes[shard]
                        },
                    ),
                    ..c
                },
                ThreadModel {
                    spans: t.spans.push(SpanRecordModel { closed_at: Some(now), ..record }),
                    ..t
                },
                true,
            )
        } else {
            (c, t, false)
        },
        None => (c, t, false),
    }
}

/// A closed span is kept; where too many are, the oldest goes.
pub open spec fn span_kept(c: CacheModel, record: SpanRecordModel) -> CacheModel {
    let all = c.closed.insert(record.id, record);
    CacheModel {
        closed: if all.dom().len() > c.capacity {
            all.remove(choose|id: u64| is_smallest(all.dom(), id))
        } else {
            all
        },
        ..c
    }
}

/// The closed span that goes when one more is kept, if one does.
pub open spec fn span_dropped(c: CacheModel, record: SpanRecordModel) -> Option<SpanRecordModel> {
    let all = c.closed.insert(record.id, record);
    if all.dom().len() > c.capacity {
        Some(all[choose|id: u64| is_smallest(all.dom(), id)])
    } else {
        None
    }
}

/// The ids of the closed spans beyond `after`, ascending; zero is before all.
pub open spec fn ids_after(closed: Map<u64, SpanRecordModel>, after: u64) -> Seq<u64> {
    listing(
        key_order::<u64>(),
        closed.dom().filter(|id: u64| after == 0 || id > after),
    )
}

/// The first `limit` closed spans beyond `after`, in the order of their ids.
pub open spec fn page_of(
    closed: Map<u64, SpanRecordModel>,
    after: u64,
    limit: nat,
) -> Seq<SpanRecordModel> {
    let ids = ids_after(closed, after);
    let n = if limit < ids.len() {
        limit as int
    } else {
        ids.len() as int
    };
    ids.take(n).map_values(|id: u64| closed[id])
}

/// What has to be done after a thread kept something to be sent.
#[derive(Debug, Clone, Copy, PartialEq, Eq, Structural)]
pub enum Pending {
    /// Nothing yet.
    Keep,
    /// Enough is kept: send it.
    Flush,
}

pub open spec fn flush_if(due: bool) -> Pending {
    if due {
        Pending::Flush
    } else {
        Pending::Keep
    }
}

impl SpanCache<LevelPredicate> {
    /// A cache that records everything.
    pub fn new(capacity: usize) -> (r: (Self, Driver))
        requires
            has_room(capacity),
        ensures
            r.0.wf(),
            r.0@ == empty_cache(capacity as nat, default_config()),
            r.0.predicate().filter() == WireLevelFilter::Trace,
            r.0.pooled() == empty_pool(r.0@.lanes.len()),
            r.1.wf(),
            r.1@ == fresh_driver(capacity as nat),
    {
        Self::with_predicate(capacity, LevelPredicate::new(WireLevel::Trace))
    }

    /// A cache that records everything, with settings.
    pub fn with_config(capacity: usize, config: CacheConfig) -> (r: (Self, Driver))
        requires
            has_room(capacity),
        ensures
            r.0.wf(),
            r.0@ == empty_cache(capacity as nat, config),
            r.0.predicate().filter() == WireLevelFilter::Trace,
            r.0.pooled() == empty_pool(r.0@.lanes.len()),
            r.1.wf(),
            r.1@ == fresh_driver(capacity as nat),
    {
        Self::with_predicate_and_config(capacity, LevelPredicate::new(WireLevel::Trace), config)
    }
}

/// The settings that are used where none are given.
pub open spec fn default_config() -> CacheConfig {
    CacheConfig {
        lane_count: crate::cache::config::DEFAULT_LANE_COUNT,
        pending_batch: 32,
        driver_batch: 600,
        driver_interval: 1_000_000_000,
        channel_capacity: 65_536,
    }
}

/// How many event records wait in each shard of a pool for `n` lanes at the
/// start.
pub open spec fn empty_pool(n: nat) -> Seq<nat> {
    Seq::new(next_power(n), |i: int| 0nat)
}

/// A driver that was never used.
pub open spec fn fresh_driver(capacity: nat) -> DriverModel {
    DriverModel {
        capacity,
        side: Map::empty(),
        lost: Seq::empty(),
        span_closed: false,
        event_closed: false,
    }
}

impl<P: EnabledPredicate> SpanCache<P> {
    pub closed spec fn predicate(&self) -> P {
        self.predicate
    }

    pub closed spec fn wf(&self) -> bool {
        &&& self.lanes.wf()
        &&& self.in_flight@.len() == lanes_with(self.lanes.bits())
        &&& self.shard_capacity <= MAX_SLOTS
        &&& forall|i: int|
            0 <= i < self.in_flight@.len() ==> (#[trigger] self.in_flight@[i]).wf()
                && self.in_flight@[i]@.last_ids.len() == self.shard_capacity
        &&& self.map.wf()
        &&& self.event_pool.wf()
        &&& forall|i: int|
            0 <= i < self.event_pool.shards().len() ==> (
            #[trigger] self.event_pool.shards()[i]).capacity() == POOLED_EVENTS
    }

    /// How many event records wait for use in each shard of the pool.
    pub closed spec fn pooled(&self) -> Seq<nat> {
        self.event_pool.shards().map_values(|p: Pool<EventRecord>| p.items().len())
    }

    /// There is a shard, and none holds more event records than it may.
    pub proof fn pool_has_room(&self)
        requires
            self.wf(),
        ensures
            self.pooled().len() > 0,
            self.pooled().len() <= usize::MAX,
            within_room(self.pooled()),
    {
        assert forall|i: int| 0 <= i < self.pooled().len() implies (#[trigger] self.pooled()[i])
            <= POOLED_EVENTS by {
            assert(self.event_pool.shards()[i].wf());
        }
        self.event_pool.shards_are_few();
    }

    /// What holds of the lanes of every cache.
    pub proof fn lanes_are_sound(&self)
        requires
            self.wf(),
        ensures
            sound(self@),
    {
    }

    /// A cache with a predicate.
    pub fn with_predicate(capacity: usize, predicate: P) -> (r: (Self, Driver))
        requires
            has_room(capacity),
        ensures
            r.0.wf(),
            r.0@ == empty_cache(capacity as nat, default_config()),
            r.0.predicate() == predicate,
            r.0.pooled() == empty_pool(r.0@.lanes.len()),
            r.1.wf(),
            r.1@ == fresh_driver(capacity as nat),
    {
        Self::with_predicate_and_config(capacity, predicate, CacheConfig::default())
    }

    /// A cache with a predicate and settings.
    pub fn with_predicate_and_config(capacity: usize, predicate: P, config: CacheConfig) -> (r: (
        Self,
        Driver,
    ))
        requires
            has_room(capacity),
        ensures
            r.0.wf(),
            r.0@ == empty_cache(capacity as nat, config),
            r.0.predicate() == predicate,
            r.0.pooled() == empty_pool(r.0@.lanes.len()),
            r.1.wf(),
            r.1@ == fresh_driver(capacity as nat),
    {
        let lanes = Lanes::new(config.lane_count);
        let n: usize = lanes.count();
        let wide: u128 = (capacity as u128 + n as u128 - 1) / n as u128;
        proof {
            share_fits(capacity as int, n as int);
        }
        let shard_capacity: usize = wide as usize;
        let mut in_flight: Vec<ShardLane> = Vec::new();
        let mut i: usize = 0;
        while i < n
            invariant
                i <= n,
                has_room(shard_capacity),
                in_flight@.len() == i,
                forall|j: int|
                    0 <= j < i ==> (#[trigger] in_flight@[j]).wf() && in_flight@[j]@ == empty_lane(
                        shard_capacity as nat,
                    ),
            decreases n - i,
        {
            in_flight.push(ShardLane::new(shard_capacity));
            i = i + 1;
        }
        let event_pool: ObjectPool<EventRecord> = ObjectPool::new(n, POOLED_EVENTS);
        let cache = SpanCache {
            lanes,
            in_flight,
            map: SortedMap::new(),
            id_high_water: ID_BATCH,
            predicate,
            capacity,
            shard_capacity,
            pending_batch: config.pending_batch,
            event_pool,
        };
        proof {
            assert(cache@.lanes =~= empty_cache(capacity as nat, config).lanes);
            assert(cache@.closed =~= Map::empty());
            assert(cache.pooled() =~= empty_pool(cache@.lanes.len()));
        }
        (cache, Driver::new(capacity))
    }

    /// How many lanes there are.
    pub fn lane_count(&self) -> (n: usize)
        requires
            self.wf(),
        ensures
            n == self@.lanes.len(),
    {
        self.in_flight.len()
    }

    /// The id under which an open span is recorded.
    pub fn actual_id_for(&self, tracing_id: u64) -> (r: Option<u64>)
        requires
            self.wf(),
            self@.knows(tracing_id),
        ensures
            r == self@.actual_id(tracing_id),
    {
        match self.lanes.decode_tracing_id(tracing_id) {
            Some((shard, slot)) => {
                assert(self@.lanes[shard as int] == self.in_flight@[shard as int]@);
                Some(self.in_flight[shard].last_id(slot))
            },
            None => None,
        }
    }

    /// Whether an id tells no slot, or one that there is.
    pub fn has_slot(&self, tracing_id: u64) -> (r: bool)
        requires
            self.wf(),
        ensures
            r == self@.knows(tracing_id),
    {
        match self.lanes.decode_tracing_id(tracing_id) {
            Some((_, slot)) => slot < self.shard_capacity as u64,
            None => true,
        }
    }

    /// The finest level that may be recorded, if that is known.
    pub fn max_level_hint(&self) -> (r: Option<WireLevelFilter>)
        ensures
            self.predicate().may_hint(r),
    {
        self.predicate.max_level_hint()
    }

    /// Whether anything from a place in the program is of interest.
    pub fn register_callsite(&self, metadata: &Metadata) -> (r: Interest)
        ensures
            self.predicate().may_interest(metadata@, r),
    {
        self.predicate.callsite_enabled(metadata)
    }

    /// Whether a span may be recorded. Within a span that is not, none is.
    pub fn enabled(&self, t: &ThreadState, metadata: &Metadata) -> (r: bool)
        ensures
            if t@.top() is Some && t@.top()->0.tracing_id == DISABLED {
                !r
            } else {
                self.predicate().may_enable(metadata@, r)
            },
    {
        if let Some(top) = t.stack_top() {
            if top.tracing_id == DISABLED {
                return false;
            }
        }
        self.predicate.enabled(metadata)
    }

    /// Whether an event may be recorded.
    pub fn event_enabled(&self, metadata: &Metadata) -> (r: bool)
        ensures
            self.predicate().may_enable(metadata@, r),
    {
        self.predicate.enabled(metadata)
    }

    /// What a new span hangs on.
    fn resolve_parent(&self, t: &ThreadState, parent: ParentOf) -> (r: Option<Option<u64>>)
        requires
            self.wf(),
            parent matches ParentOf::Explicit(id) ==> self@.knows(id),
        ensures
            r == parent_for(self@, t@, parent),
    {
        match parent {
            ParentOf::Context => match t.stack_top() {
                Some(top) => if top.tracing_id == DISABLED {
                    None
                } else {
                    Some(Some(top.actual_id))
                },
                None => None,
            },
            ParentOf::Root => if t.stack_top().is_some() {
                None
            } else {
                Some(None)
            },
            ParentOf::Explicit(id) => match self.actual_id_for(id) {
                Some(actual) => Some(Some(actual)),
                None => None,
            },
        }
    }

    /// Whether there is a span id left for a thread.
    pub fn has_ids(&self, t: &ThreadState) -> (r: bool)
        ensures
            r == ids_left(self@.id_high_water, t@.id_cursor),
    {
        t.has_ids(self.id_high_water)
    }

    /// Opens a span. The predicate is asked only where the span has something
    /// to hang on.
    pub fn new_span(&mut self, t: &mut ThreadState, span: &Attributes, now: u64) -> (id: Id)
        requires
            old(self).wf(),
            span@.parent matches ParentOf::Explicit(id) ==> old(self)@.knows(id),
            ids_left(old(self)@.id_high_water, old(t)@.id_cursor),
        ensures
            final(self).wf(),
            final(self).predicate() == old(self).predicate(),
            final(self).pooled() == old(self).pooled(),
            exists|answer: bool|
                (parent_for(old(self)@, old(t)@, span@.parent) is None || old(
                    self,
                ).predicate().may_answer(span@, answer)) && #[trigger] span_opened(
                    old(self)@,
                    old(t)@,
                    span@,
                    answer,
                    now,
                    final(self)@,
                    final(t)@,
                    id_number(id),
                ),
    {
        let ghost c = self@;
        let ghost t0 = t@;
        if self.resolve_parent(t, span.parent).is_none() {
            let id = u64_to_id(DISABLED);
            assert(span_opened(c, t0, span@, false, now, self@, t@, id_number(id)));
            return id;
        }
        let answer: bool = self.predicate.new_span_enabled(span);
        let n: u64 = self.open_span(t, span, answer, now);
        u64_to_id(n)
    }

    /// Opens a span where the predicate has answered.
    pub fn open_span(&mut self, t: &mut ThreadState, span: &Attributes, answer: bool, now: u64) -> (
    id: u64)
        requires
            old(self).wf(),
            span@.parent matches ParentOf::Explicit(id) ==> old(self)@.knows(id),
            ids_left(old(self)@.id_high_water, old(t)@.id_cursor),
        ensures
            final(self).wf(),
            final(self).predicate() == old(self).predicate(),
            final(self).pooled() == old(self).pooled(),
            id > 0,
            span_opened(old(self)@, old(t)@, span@, answer, now, final(self)@, final(t)@, id),
    {
        let ghost c = self@;
        let parent: Option<u64> = match self.resolve_parent(t, span.parent) {
            Some(parent) => parent,
            None => return DISABLED,
        };
        if !answer {
            return DISABLED;
        }
        let actual: u64 = t.allocate_actual_id(&mut self.id_high_water);
        let ghost taken = self@;
        let mut fields: FieldList = Vec::new();
        assert(values_model(fields@) =~= Seq::empty());
        set_fields(&mut fields, &span.fields);
        let events: Vec<EventRecord> = Vec::new();
        assert(events_model(events@) =~= Seq::empty());
        let record = SpanRecord {
            id: actual,
            parent_id: parent,
            metadata: span.metadata.duplicate(),
            fields,
            events,
            opened_at: now,
            closed_at: None,
        };
        assert(record@ == new_record(actual, parent, span@, now));
        let shard: usize = self.lanes.pick_shard(t.shard_key());
        let ghost lane = self.in_flight@[shard as int]@;
        assert(c.lanes[shard as int] == lane);
        if self.in_flight[shard].len() >= self.shard_capacity {
            return DISABLED;
        }
        let slot: usize = self.in_flight[shard].insert(record);
        proof {
            assert(slot_free(c, shard as int, slot as int));
            assert(lanes_model(self.in_flight@) =~= slot_filled(
                taken,
                shard as int,
                slot as int,
                new_record(actual, parent, span@, now),
            ).lanes);
        }
        self.lanes.encode_tracing_id(shard, slot)
    }

    /// Records values for an open span.
    pub fn record(&mut self, span: &Id, values: &FieldList)
        requires
            old(self).wf(),
        ensures
            final(self).wf(),
            final(self).predicate() == old(self).predicate(),
            final(self).pooled() == old(self).pooled(),
            final(self)@ == match id_slot(old(self)@.bits, id_number(*span)) {
                Some((shard, slot)) => CacheModel {
                    lanes: old(self)@.lanes.update(
                        shard,
                        recorded_in(old(self)@.lanes[shard], slot, values_model(values@)),
                    ),
                    ..old(self)@
                },
                None => old(self)@,
            },
    {
        let ghost c = self@;
        if let Some((shard, slot)) = self.lanes.decode_tracing_id(id_to_u64(span)) {
            assert(c.lanes[shard as int] == self.in_flight@[shard as int]@);
            self.in_flight[shard].record(slot, values);
            assert(self@.lanes =~= c.lanes.update(
                shard as int,
                recorded_in(c.lanes[shard as int], slot as int, values_model(values@)),
            ));
        }
    }

    /// Takes an event in. It is kept to be sent, unless there is no recorded
    /// span to which it belongs.
    pub fn event(&mut self, t: &mut ThreadState, event: &Event, now: u64) -> (r: Pending)
        requires
            old(self).wf(),
            event@.parent is Some ==> old(self)@.knows(event@.parent->0),
        ensures
            final(self).wf(),
            final(self).predicate() == old(self).predicate(),
            final(self)@ == old(self)@,
            match event_parent(old(self)@, old(t)@, event@) {
                Some(parent) => {
                    &&& final(t)@ == (ThreadModel {
                        events: old(t)@.events.push(
                            MessageModel {
                                parent,
                                record: event_record(
                                    event@,
                                    now,
                                    shard_for(old(self).pooled(), old(t)@.shard_key) as usize,
                                ),
                            },
                        ),
                        ..old(t)@
                    })
                    &&& final(self).pooled() == one_taken(
                        old(self).pooled(),
                        shard_for(old(self).pooled(), old(t)@.shard_key),
                    )
                    &&& r == flush_if(final(t)@.events.len() >= old(self)@.pending_batch)
                },
                None => final(t)@ == old(t)@ && r == Pending::Keep && final(self).pooled() == old(
                    self,
                ).pooled(),
            },
    {
        let parent: u64 = match event.parent {
            Some(id) => {
                if id == DISABLED {
                    return Pending::Keep;
                }
                match self.actual_id_for(id) {
                    Some(actual) => actual,
                    None => return Pending::Keep,
                }
            },
            None => match t.stack_top() {
                Some(top) => {
                    if top.tracing_id == DISABLED {
                        return Pending::Keep;
                    }
                    top.actual_id
                },
                None => return Pending::Keep,
            },
        };
        let ghost before = self.pooled();
        let ghost shards = self.event_pool.shards();
        let pooled: ReuseRef<EventRecord> = self.event_pool.acquire(t.shard_key(), true);
        proof {
            let now = self.event_pool.shards();
            let at = shard_for(before, t@.shard_key);
            assert forall|i: int| 0 <= i < shards.len() implies #[trigger] now[i].items().len()
                == one_taken(before, at)[i] by {
                if i != at {
                    assert(now[i] == shards[i]);
                }
            }
            assert(self.pooled() =~= one_taken(before, at));
        }
        let mut record = pooled.value;
        record.home = Some(pooled.shard);
        record.metadata = Some(event.metadata.duplicate());
        record.recorded_at = Some(now);
        record.fields.clear();
        assert(values_model(record.fields@) =~= Seq::empty());
        set_fields(&mut record.fields, &event.fields);
        let n: usize = t.pending_push_event(EventMessage { parent_actual_id: parent, record });
        if n >= self.pending_batch {
            Pending::Flush
        } else {
            Pending::Keep
        }
    }

    /// Enters a span.
    pub fn enter(&self, t: &mut ThreadState, span: &Id)
        requires
            self.wf(),
            self@.knows(id_number(*span)),
        ensures
            final(t)@ == (ThreadModel {
                stack: old(t)@.stack.push(
                    StackedSpan {
                        tracing_id: id_number(*span),
                        actual_id: match self@.actual_id(id_number(*span)) {
                            Some(actual) => actual,
                            None => 0,
                        },
                    },
                ),
                ..old(t)@
            }),
    {
        let tracing_id: u64 = id_to_u64(span);
        let actual_id: u64 = match self.actual_id_for(tracing_id) {
            Some(actual) => actual,
            None => 0,
        };
        t.stack_push(StackedSpan { tracing_id, actual_id });
    }

    /// Leaves the innermost span.
    pub fn exit(&self, t: &mut ThreadState, _span: &Id)
        ensures
            final(t)@ == (ThreadModel {
                stack: if old(t)@.stack.len() > 0 {
                    old(t)@.stack.drop_last()
                } else {
                    old(t)@.stack
                },
                ..old(t)@
            }),
    {
        t.stack_pop();
    }

    /// Closes a span. Tells whether it was open, and what has to be done.
    pub fn try_close(&mut self, t: &mut ThreadState, id: &Id, now: u64) -> (r: (bool, Pending))
        requires
            old(self).wf(),
        ensures
            final(self).wf(),
            final(self).predicate() == old(self).predicate(),
            final(self).pooled() == old(self).pooled(),
            (final(self)@, final(t)@, r.0) == span_closed(
                old(self)@,
                old(t)@,
                id_number(*id),
                now,
            ),
            r.1 == flush_if(r.0 && final(t)@.spans.len() >= old(self)@.pending_batch),
    {
        let ghost c = self@;
        let (shard, slot): (usize, u64) = match self.lanes.decode_tracing_id(id_to_u64(id)) {
            Some(at) => at,
            None => return (false, Pending::Keep),
        };
        let ghost lane = self.in_flight@[shard as int]@;
        assert(c.lanes[shard as int] == lane);
        match self.in_flight[shard].try_remove(slot) {
            Some(record) => {
                let mut closed = record;
                closed.closed_at = Some(now);
                assert(self@.lanes =~= c.lanes.update(
                    shard as int,
                    LaneModel { spans: lane.spans.remove(slot as int), ..lane },
                ));
                let n: usize = t.pending_push_span(closed);
                if n >= self.pending_batch {
                    (true, Pending::Flush)
                } else {
                    (true, Pending::Keep)
                }
            },
            None => {
                proof {
                    assert(lane.spans.remove(slot as int) =~= lane.spans);
                    assert(self@.lanes =~= c.lanes);
                }
                (false, Pending::Keep)
            },
        }
    }

    /// Takes out what a thread has kept to be sent: the events, which go
    /// first, and the closed spans.
    pub fn flush_pending(&self, t: &mut ThreadState) -> (r: (Vec<EventMessage>, Vec<SpanRecord>))
        ensures
            messages_model(r.0@) == old(t)@.events,
            records_model(r.1@) == old(t)@.spans,
            final(t)@ == (ThreadModel { events: Seq::empty(), spans: Seq::empty(), ..old(t)@ }),
    {
        let events = t.pending_drain_events();
        let spans = t.pending_drain_spans();
        (events, spans)
    }

    /// How many event records wait for the thread with the given key.
    pub fn ready_events(&self, key: u64) -> (n: usize)
        requires
            self.wf(),
        ensures
            n == self.pooled()[shard_for(self.pooled(), key)],
    {
        self.event_pool.ready(self.event_pool.shard_of(key))
    }

    /// Hands event records that nobody needs any more back for use, each to
    /// the shard from which it came, as far as there is room.
    pub fn recycle(&mut self, events: Vec<EventRecord>)
        requires
            old(self).wf(),
        ensures
            final(self).wf(),
            final(self).predicate() == old(self).predicate(),
            final(self)@ == old(self)@,
            final(self).pooled() == recycled(old(self).pooled(), events_model(events@)),
    {
        let mut left = events;
        let ghost given = events_model(events@);
        let ghost before = self.pooled();
        proof {
            self.pool_has_room();
            nothing_recycled(before);
            assert(given.skip(given.len() as int) =~= Seq::empty());
            assert(given.take(given.len() as int) =~= given);
        }
        let mut more: bool = true;
        while more
            invariant
                self.wf(),
                self.predicate() == old(self).predicate(),
                self@ == old(self)@,
                within_room(before),
                left@.len() <= given.len(),
                events_model(left@) == given.take(left@.len() as int),
                self.pooled() == recycled(before, given.skip(left@.len() as int)),
                !more ==> left@.len() == 0,
            decreases left@.len(), (if more { 1int } else { 0int }),
        {
            let ghost n = left@.len() as int;
            match left.pop() {
                Some(value) => {
                    let ghost one = value@;
                    proof {
                        assert(given.take(n)[n - 1] == one);
                        assert(events_model(left@) =~= given.take(n - 1));
                        recycled_in_turn(before, given.skip(n), seq![one]);
                        assert(given.skip(n - 1) =~= seq![one] + given.skip(n));
                    }
                    self.recycle_one(value);
                },
                None => {
                    more = false;
                },
            }
        }
        assert(given.skip(0) =~= given);
    }

    fn recycle_one(&mut self, value: EventRecord)
        requires
            old(self).wf(),
        ensures
            final(self).wf(),
            final(self).predicate() == old(self).predicate(),
            final(self)@ == old(self)@,
            final(self).pooled() == recycled(old(self).pooled(), seq![value@]),
    {
        let ghost one = seq![value@];
        let ghost pooled = self.pooled();
        let ghost shards = self.event_pool.shards();
        proof {
            self.pool_has_room();
            assert(one.drop_last() =~= Seq::empty());
            assert forall|i: int| homes_at(one, i) == if value.home is Some && value.home->0 == i {
                1nat
            } else {
                0
            } by {
                reveal_with_fuel(homes_at, 2);
            }
        }
        if let Some(shard) = value.home {
            self.event_pool.release(ReuseRef { value, shard }, true);
            proof {
                let now = self.event_pool.shards();
                assert forall|i: int| 0 <= i < shards.len() implies {
                    &&& #[trigger] now[i].items().len() == recycled(pooled, one)[i]
                    &&& now[i].capacity() == POOLED_EVENTS
                } by {
                    assert(pooled[i] == shards[i].items().len());
                    assert(shards[i].capacity() == POOLED_EVENTS);
                    if i != shard {
                        assert(now[i] == shards[i]);
                    } else {
                        assert(shards[i].wf());
                    }
                }
            }
        }
        assert(self.pooled() =~= recycled(pooled, one));
    }

    /// Keeps a closed span. Where there are too many, the oldest goes. The
    /// event records of a span that goes are used again.
    pub fn commit(&mut self, record: SpanRecord)
        requires
            old(self).wf(),
        ensures
            final(self).wf(),
            final(self).predicate() == old(self).predicate(),
            final(self)@ == span_kept(old(self)@, record@),
            final(self).pooled() == recycled(
                old(self).pooled(),
                events_freed(old(self)@, record@),
            ),
    {
        let ghost c = self@;
        let ghost all = c.closed.insert(record.id, record@);
        let ghost pooled = self.pooled();
        let ghost kept = record@;
        let ghost replaced = if c.closed.dom().contains(record.id) {
            c.closed[record.id].events
        } else {
            Seq::empty()
        };
        proof {
            self.pool_has_room();
            nothing_recycled(pooled);
        }
        if let Some(earlier) = self.map.remove(&record.id) {
            assert(self@.closed =~= c.closed.remove(record.id));
            self.recycle(earlier.events);
        } else {
            assert(self@.closed =~= c.closed.remove(record.id));
        }
        assert(self.pooled() == recycled(pooled, replaced));
        let ghost rest = self.map@;
        assert(closed_model(rest) == c.closed.remove(record.id));
        self.map.insert(record.id, record);
        assert(closed_model(self.map@) =~= closed_model(rest).insert(kept.id, kept));
        assert(closed_model(self.map@) =~= all);
        proof {
            first_is_smallest(&self.map);
            assert(all.dom() =~= self.map@.dom());
        }
        if self.map.len() > self.capacity {
            let oldest: u64 = *self.map.key_at(0);
            if let Some(gone) = self.map.remove(&oldest) {
                assert(closed_model(self.map@) =~= all.remove(oldest));
                proof {
                    recycled_in_turn(pooled, replaced, gone@.events);
                }
                self.recycle(gone.events);
            }
        } else {
            assert(replaced + Seq::<EventRecordModel>::empty() =~= replaced);
        }
    }

    /// The closed span with the given id.
    pub fn get_span(&self, actual_id: u64) -> (r: Option<SpanRecord>)
        requires
            self.wf(),
        ensures
            match r {
                Some(span) => self@.closed.dom().contains(actual_id) && span@
                    == self@.closed[actual_id],
                None => !self@.closed.dom().contains(actual_id),
            },
    {
        match self.map.get(&actual_id) {
            Some(span) => Some(span.duplicate()),
            None => None,
        }
    }

    /// Forgets all closed spans; their event records are used again. Open
    /// spans stay.
    pub fn clear(&mut self)
        requires
            old(self).wf(),
        ensures
            final(self).wf(),
            final(self).predicate() == old(self).predicate(),
            final(self)@ == (CacheModel { closed: Map::empty(), ..old(self)@ }),
            final(self).pooled() == recycled(
                old(self).pooled(),
                events_of(
                    old(self)@.closed,
                    listing(key_order::<u64>(), old(self)@.closed.dom()),
                ),
            ),
    {
        let ghost closed = self@.closed;
        let ghost before = self.pooled();
        let ghost ids = self.map.listed();
        let mut map: SortedMap<u64, SpanRecord> = SortedMap::new();
        proof {
            self.pool_has_room();
            nothing_recycled(before);
            self.map.listed_is_listing();
            assert(closed.dom() =~= self.map@.dom());
            assert forall|i: int| 0 <= i < ids.len() implies closed[#[trigger] ids[i]]
                == self.map@[ids[i]]@ by {
                assert(ids.to_set().contains(ids[i]));
            }
        }
        std::mem::swap(&mut map, &mut self.map);
        assert(closed_model(self.map@) =~= Map::empty());
        let mut spans = map.into_values();
        let ghost empty = self@;
        assert(ids.skip(ids.len() as int) =~= Seq::empty());
        let mut more: bool = true;
        while more
            invariant
                self.wf(),
                self.predicate() == old(self).predicate(),
                self@ == empty,
                within_room(before),
                spans@.len() <= ids.len(),
                forall|i: int| 0 <= i < spans@.len() ==> (#[trigger] spans@[i])@ == closed[ids[i]],
                self.pooled() == recycled(before, events_of(closed, ids.skip(spans@.len() as int))),
                !more ==> spans@.len() == 0,
            decreases spans@.len(), (if more { 1int } else { 0int }),
        {
            let ghost n = spans@.len() as int;
            match spans.pop() {
                Some(span) => {
                    proof {
                        assert(span@ == closed[ids[n - 1]]);
                        assert(ids.skip(n - 1).skip(1) =~= ids.skip(n));
                        recycled_in_turn(
                            before,
                            events_of(closed, ids.skip(n)),
                            span@.events,
                        );
                    }
                    self.recycle(span.events);
                },
                None => {
                    more = false;
                },
            }
        }
        assert(ids.skip(0) =~= ids);
    }

    /// The first `limit` closed spans beyond an id, in the order of their
    /// ids; zero is before all.
    pub fn page(&self, after_id: u64, limit: usize) -> (r: Vec<SpanRecord>)
        requires
            self.wf(),
        ensures
            records_model(r@) == page_of(self@.closed, after_id, limit as nat),
    {
        let ghost keys = self.map.listed();
        let n: usize = self.map.len();
        let mut start: usize = 0;
        proof {
            self.map.listed_is_listing();
            assert(self@.closed.dom() =~= self.map@.dom());
        }
        while start < n && after_id != 0 && *self.map.key_at(start) <= after_id
            invariant
                self.wf(),
                keys == self.map.listed(),
                n == keys.len(),
                start <= n,
                after_id == 0 ==> start == 0,
                forall|j: int| 0 <= j < start ==> (#[trigger] keys[j]) <= after_id,
            decreases n - start,
        {
            start = start + 1;
        }
        proof {
            page_ids(keys, start as int, after_id);
            assert(keys.to_set() == self@.closed.dom());
        }
        let ghost rest = keys.skip(start as int);
        assert(ids_after(self@.closed, after_id) == rest);
        let count: usize = if limit < n - start {
            limit
        } else {
            n - start
        };
        let mut out: Vec<SpanRecord> = Vec::new();
        let mut i: usize = 0;
        while i < count
            invariant
                self.wf(),
                keys == self.map.listed(),
                n == keys.len(),
                rest == keys.skip(start as int),
                start + count <= n,
                i <= count,
                out@.len() == i,
                forall|j: int|
                    0 <= j < i ==> (#[trigger] out@[j])@ == self@.closed[rest[j]],
            decreases count - i,
        {
            let span = self.map.value_at(start + i);
            assert(keys[start + i] == rest[i as int]);
            out.push(span.duplicate());
            i = i + 1;
        }
        assert(records_model(out@) =~= page_of(self@.closed, after_id, limit as nat));
        out
    }
}

/// The ids beyond `after` are the end of the ascending list of all.
proof fn page_ids(keys: Seq<u64>, start: int, after: u64)
    requires
        crate::sorted::ascending(key_order::<u64>(), keys),
        0 <= start <= keys.len(),
        after == 0 ==> start == 0,
        forall|j: int| 0 <= j < start ==> (#[trigger] keys[j]) <= after,
        after != 0 && start < keys.len() ==> keys[start] > after,
    ensures
        listing(
            key_order::<u64>(),
            keys.to_set().filter(|id: u64| after == 0 || id > after),
        ) == keys.skip(start),
{
    let lt = key_order::<u64>();
    let rest = keys.skip(start);
    crate::order::key_order_is_strict::<u64>();
    assert(crate::sorted::ascending(lt, rest)) by {
        assert forall|a: int, b: int| 0 <= a < b < rest.len() implies lt(
            #[trigger] rest[a],
            #[trigger] rest[b],
        ) by {
            assert(lt(keys[start + a], keys[start + b]));
        }
    }
    let set = keys.to_set().filter(|id: u64| after == 0 || id > after);
    assert(rest.to_set() =~= set) by {
        assert forall|x: u64| rest.to_set().contains(x) == set.contains(x) by {
            if rest.contains(x) {
                let j = choose|j: int| 0 <= j < rest.len() && rest[j] == x;
                assert(keys[start + j] == x);
                assert(keys.contains(x));
                if after != 0 && j > 0 {
                    assert(lt(keys[start], keys[start + j]));
                }
            }
            if set.contains(x) {
                let j = choose|j: int| 0 <= j < keys.len() && keys[j] == x;
                if j < start {
                    assert(keys[j] <= after);
                }
                assert(rest[j - start] == x);
            }
        }
    }
    crate::sorted::ascending_is_listing(lt, rest);
}

proof fn share_fits(capacity: int, n: int)
    requires
        0 <= capacity <= MAX_SLOTS,
        1 <= n <= 256,
    ensures
        0 <= slots_per_lane(capacity, n) <= capacity,
{
    let q = slots_per_lane(capacity, n);
    vstd::arithmetic::div_mod::lemma_fundamental_div_mod(capacity + n - 1, n);
    assert(q <= capacity) by (nonlinear_arith)
        requires
            capacity + n - 1 == n * q + (capacity + n - 1) % n,
            (capacity + n - 1) % n >= 0,
            n >= 1,
            capacity >= 0,
    ;
    assert(q >= 0) by (nonlinear_arith)
        requires
            q == (capacity + n - 1) / n,
            n >= 1,
            capacity >= 0,
    ;
}

} // verus!
