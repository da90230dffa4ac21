//! Brings events to the spans they belong to before the spans are handed
//! out.
//!
//! Events and spans arrive on two ways. An event that arrives before its span
//! waits for it; an event that arrives after it comes too late.

use vstd::prelude::*;

use crate::cache::record::{
    events_model, EventRecord, EventRecordModel, SpanRecord, SpanRecordModel,
};
use crate::order::key_order;
use crate::sorted::SortedMap;

verus! {

/// An event on its way to the driver.
pub struct EventMessage {
    /// The span to which the event belongs.
    pub parent_actual_id: u64,
    pub record: EventRecord,
}

pub ghost struct MessageModel {
    pub parent: u64,
    pub record: EventRecordModel,
}

impl View for EventMessage {
    type V = MessageModel;

    open spec fn view(&self) -> MessageModel {
        MessageModel { parent: self.parent_actual_id, record: self.record@ }
    }
}

/// The events that wait for their span.
pub type SideEvents = SortedMap<u64, Vec<EventRecord>>;

/// The events that wait, under the ids of the spans for which they wait.
pub open spec fn side_model(side: Map<u64, Vec<EventRecord>>) -> Map<u64, Seq<EventRecordModel>> {
    side.map_values(|v: Vec<EventRecord>| events_model(v@))
}

/// `id` is the smallest of some ids.
pub open spec fn is_smallest(ids: Set<u64>, id: u64) -> bool {
    ids.contains(id) && forall|other: u64| #[trigger] ids.contains(other) ==> id <= other
}

/// The first key of a map is the smallest.
pub proof fn first_is_smallest<V>(map: &SortedMap<u64, V>)
    requires
        map.wf(),
    ensures
        map@.dom().len() == map.listed().len(),
        map@.dom().finite(),
        map.listed().len() > 0 ==> {
            &&& is_smallest(map@.dom(), map.listed()[0])
            &&& map.listed()[0] == choose|id: u64| is_smallest(map@.dom(), id)
        },
{
    map.listed_is_listing();
    map.listed().unique_seq_to_set();
    let ids = map@.dom();
    if map.listed().len() > 0 {
        let first = map.listed()[0];
        assert(map.listed().to_set().contains(first));
        assert forall|other: u64| #[trigger] ids.contains(other) implies first <= other by {
            assert(map.listed().to_set().contains(other));
            let j = choose|j: int| 0 <= j < map.listed().len() && map.listed()[j] == other;
            if j > 0 {
                assert(key_order::<u64>()(map.listed()[0], map.listed()[j]));
            }
        }
        assert(is_smallest(ids, first));
        let k = choose|id: u64| is_smallest(ids, id);
        assert(is_smallest(ids, k));
        assert(ids.contains(k) && ids.contains(first));
    }
}

/// What waits, without what waits for the smallest id.
pub open spec fn without_oldest(
    side: Map<u64, Seq<EventRecordModel>>,
) -> Map<u64, Seq<EventRecordModel>> {
    if exists|id: u64| is_smallest(side.dom(), id) {
        side.remove(choose|id: u64| is_smallest(side.dom(), id))
    } else {
        side
    }
}

/// What waits after an event has arrived. Where there is no room for one more
/// span, the events of the oldest one go.
pub open spec fn event_parked(
    side: Map<u64, Seq<EventRecordModel>>,
    capacity: nat,
    m: MessageModel,
) -> Map<u64, Seq<EventRecordModel>> {
    if side.dom().contains(m.parent) {
        side.insert(m.parent, side[m.parent].push(m.record))
    } else if side.dom().len() >= capacity {
        without_oldest(side).insert(m.parent, seq![m.record])
    } else {
        side.insert(m.parent, seq![m.record])
    }
}

/// The events that go because another one has arrived: those of the oldest
/// span where there was no room for one more.
pub open spec fn event_lost(
    side: Map<u64, Seq<EventRecordModel>>,
    capacity: nat,
    m: MessageModel,
) -> Seq<EventRecordModel> {
    if !side.dom().contains(m.parent) && side.dom().len() >= capacity && exists|id: u64|
        is_smallest(side.dom(), id) {
        side[choose|id: u64| is_smallest(side.dom(), id)]
    } else {
        Seq::empty()
    }
}

/// The events that go because several have arrived, one after the other.
pub open spec fn events_lost(
    side: Map<u64, Seq<EventRecordModel>>,
    capacity: nat,
    batch: Seq<MessageModel>,
) -> Seq<EventRecordModel>
    decreases batch.len(),
{
    if batch.len() == 0 {
        Seq::empty()
    } else {
        events_lost(side, capacity, batch.drop_last()) + event_lost(
            events_parked(side, capacity, batch.drop_last()),
            capacity,
            batch.last(),
        )
    }
}

/// What waits after several events have arrived, one after the other.
pub open spec fn events_parked(
    side: Map<u64, Seq<EventRecordModel>>,
    capacity: nat,
    batch: Seq<MessageModel>,
) -> Map<u64, Seq<EventRecordModel>>
    decreases batch.len(),
{
    if batch.len() == 0 {
        side
    } else {
        event_parked(events_parked(side, capacity, batch.drop_last()), capacity, batch.last())
    }
}

/// A span with the events that waited for it.
pub open spec fn span_joined(
    side: Map<u64, Seq<EventRecordModel>>,
    span: SpanRecordModel,
) -> SpanRecordModel {
    if side.dom().contains(span.id) {
        SpanRecordModel { events: span.events + side[span.id], ..span }
    } else {
        span
    }
}

/// What waits after several spans have arrived, and the spans with the events
/// that waited for them.
pub open spec fn spans_joined(
    side: Map<u64, Seq<EventRecordModel>>,
    batch: Seq<SpanRecordModel>,
) -> (Map<u64, Seq<EventRecordModel>>, Seq<SpanRecordModel>)
    decreases batch.len(),
{
    if batch.len() == 0 {
        (side, Seq::empty())
    } else {
        let (before, out) = spans_joined(side, batch.drop_last());
        (before.remove(batch.last().id), out.push(span_joined(before, batch.last())))
    }
}

pub open spec fn messages_model(batch: Seq<EventMessage>) -> Seq<MessageModel> {
    batch.map_values(|m: EventMessage| m@)
}

pub open spec fn records_model(batch: Seq<SpanRecord>) -> Seq<SpanRecordModel> {
    batch.map_values(|r: SpanRecord| r@)
}

/// A map and its model hold the same ids.
proof fn side_ids(side: Map<u64, Vec<EventRecord>>)
    ensures
        side_model(side).dom() == side.dom(),
{
    assert(side_model(side).dom() =~= side.dom());
}

/// What became of a batch that was sent to a watcher.
#[derive(Debug, Clone, Copy, PartialEq, Eq, Structural)]
pub enum SendOutcome {
    Sent,
    /// The watcher is gone.
    Closed,
    /// The watcher is behind; the batch is lost to it.
    Full,
}

/// Whether a watcher gets further batches.
pub fn keeps_subscriber(outcome: SendOutcome) -> (r: bool)
    ensures
        r == (outcome != SendOutcome::Closed),
{
    !matches!(outcome, SendOutcome::Closed)
}

/// What reaches the driver.
pub enum DriverInput {
    Events(Vec<EventMessage>),
    /// No more events will come.
    EventsClosed,
    Spans(Vec<SpanRecord>),
    /// No more spans will come.
    SpansClosed,
}

/// Brings events to their spans.
pub struct Driver {
    /// For how many spans events may wait.
    capacity: usize,
    side_events: SideEvents,
    /// The records of events for which there was no room.
    lost: Vec<EventRecord>,
    span_closed: bool,
    event_closed: bool,
}

pub ghost struct DriverModel {
    pub capacity: nat,
    pub side: Map<u64, Seq<EventRecordModel>>,
    pub lost: Seq<EventRecordModel>,
    pub span_closed: bool,
    pub event_closed: bool,
}

impl View for Driver {
    type V = DriverModel;

    closed spec fn view(&self) -> DriverModel {
        DriverModel {
            capacity: self.capacity as nat,
            side: side_model(self.side_events@),
            lost: events_model(self.lost@),
            span_closed: self.span_closed,
            event_closed: self.event_closed,
        }
    }
}

/// The driver after an input.
pub open spec fn driver_after(d: DriverModel, input: DriverInput) -> DriverModel {
    match input {
        DriverInput::Events(batch) => DriverModel {
            side: events_parked(d.side, d.capacity, messages_model(batch@)),
            lost: d.lost + events_lost(d.side, d.capacity, messages_model(batch@)),
            ..d
        },
        DriverInput::EventsClosed => DriverModel { event_closed: true, ..d },
        DriverInput::Spans(batch) => DriverModel {
            side: spans_joined(d.side, records_model(batch@)).0,
            ..d
        },
        DriverInput::SpansClosed => DriverModel { span_closed: true, ..d },
    }
}

/// The spans that an input lets go.
pub open spec fn handed_out(d: DriverModel, input: DriverInput) -> Seq<SpanRecordModel> {
    match input {
        DriverInput::Spans(batch) => spans_joined(d.side, records_model(batch@)).1,
        _ => Seq::empty(),
    }
}

impl Driver {
    pub closed spec fn wf(&self) -> bool {
        self.side_events.wf()
    }

    pub fn new(capacity: usize) -> (d: Self)
        ensures
            d.wf(),
            d@ == (DriverModel {
                capacity: capacity as nat,
                side: Map::empty(),
                lost: Seq::empty(),
                span_closed: false,
                event_closed: false,
            }),
    {
        let d = Driver {
            capacity,
            side_events: SortedMap::new(),
            lost: Vec::new(),
            span_closed: false,
            event_closed: false,
        };
        assert(d@.side =~= Map::empty());
        assert(d@.lost =~= Seq::empty());
        d
    }

    /// Whether nothing more will come.
    pub fn is_done(&self) -> (r: bool)
        ensures
            r == (self@.span_closed && self@.event_closed),
    {
        self.span_closed && self.event_closed
    }

    /// Takes out the records of the events that went for want of room.
    pub fn take_lost(&mut self) -> (r: Vec<EventRecord>)
        requires
            old(self).wf(),
        ensures
            final(self).wf(),
            events_model(r@) == old(self)@.lost,
            final(self)@ == (DriverModel { lost: Seq::empty(), ..old(self)@ }),
    {
        let mut r: Vec<EventRecord> = Vec::new();
        std::mem::swap(&mut r, &mut self.lost);
        assert(self@.lost =~= Seq::empty());
        r
    }

    /// Lets events wait, and sets those aside that have to go.
    fn take_events(&mut self, batch: Vec<EventMessage>)
        requires
            old(self).wf(),
        ensures
            final(self).wf(),
            final(self)@ == driver_after(old(self)@, DriverInput::Events(batch)),
    {
        let ghost had = events_model(self.lost@);
        let mut lost = Self::flush_event_batch(&mut self.side_events, self.capacity, batch);
        let ghost more = events_model(lost@);
        self.lost.append(&mut lost);
        assert(events_model(self.lost@) =~= had + more);
    }

    /// Takes an input in. Gives the spans to hand out.
    pub fn step(&mut self, input: DriverInput) -> (out: Vec<SpanRecord>)
        requires
            old(self).wf(),
        ensures
            final(self).wf(),
            final(self)@ == driver_after(old(self)@, input),
            records_model(out@) == handed_out(old(self)@, input),
    {
        let none: Vec<SpanRecord> = Vec::new();
        assert(records_model(none@) =~= Seq::empty());
        match input {
            DriverInput::Events(batch) => {
                self.take_events(batch);
                none
            },
            DriverInput::EventsClosed => {
                self.event_closed = true;
                none
            },
            DriverInput::Spans(batch) => Self::flush_span_batch(&mut self.side_events, batch),
            DriverInput::SpansClosed => {
                self.span_closed = true;
                none
            },
        }
    }

    /// Takes in everything that is there, the events first. Gives the spans
    /// to hand out.
    pub fn drain_sync(&mut self, events: Vec<EventMessage>, spans: Vec<SpanRecord>) -> (out: Vec<
        SpanRecord,
    >)
        requires
            old(self).wf(),
        ensures
            final(self).wf(),
            ({
                let (side, joined) = spans_joined(
                    events_parked(old(self)@.side, old(self)@.capacity, messages_model(events@)),
                    records_model(spans@),
                );
                &&& final(self)@ == (DriverModel {
                    side,
                    lost: old(self)@.lost + events_lost(
                        old(self)@.side,
                        old(self)@.capacity,
                        messages_model(events@),
                    ),
                    ..old(self)@
                })
                &&& records_model(out@) == joined
            }),
    {
        self.take_events(events);
        Self::flush_span_batch(&mut self.side_events, spans)
    }

    /// Adds the events that waited to each span of a batch.
    pub fn flush_span_batch(side: &mut SideEvents, batch: Vec<SpanRecord>) -> (out: Vec<SpanRecord>)
        requires
            old(side).wf(),
        ensures
            final(side).wf(),
            (side_model(final(side)@), records_model(out@)) == spans_joined(
                side_model(old(side)@),
                records_model(batch@),
            ),
    {
        let ghost start = side_model(side@);
        let ghost given = records_model(batch@);
        let mut out: Vec<SpanRecord> = Vec::new();
        let mut rest = batch;
        let mut todo: Vec<SpanRecord> = Vec::new();
        // The batch is turned round so that it can be taken from the end.
        let mut turned: usize = 0;
        let total: usize = rest.len();
        while turned < total
            invariant
                given == records_model(batch@),
                total == batch@.len(),
                turned <= total,
                rest@ == batch@.take(total - turned),
                todo@.len() == turned,
                forall|j: int|
                    0 <= j < turned ==> (#[trigger] todo@[j]) == batch@[total - 1 - j],
            decreases total - turned,
        {
            let ghost had = rest@;
            if let Some(span) = rest.pop() {
                assert(rest@ =~= batch@.take(total - turned - 1));
                todo.push(span);
            }
            turned = turned + 1;
        }
        let mut i: usize = 0;
        assert(given.take(0) =~= Seq::empty());
        assert(records_model(out@) =~= Seq::empty());
        while i < total
            invariant
                given == records_model(batch@),
                total == batch@.len(),
                i <= total,
                side.wf(),
                todo@.len() == total - i,
                forall|j: int|
                    0 <= j < total - i ==> (#[trigger] todo@[j]) == batch@[total - 1 - j],
                (side_model(side@), records_model(out@)) == spans_joined(
                    start,
                    given.take(i as int),
                ),
            decreases total - i,
        {
            let ghost had = side_model(side@);
            let ghost sent = records_model(out@);
            assert(todo@.last() == batch@[i as int]);
            if let Some(mut span) = todo.pop() {
                let ghost was = span@;
                assert(was == given[i as int]);
                let waiting = side.remove(&span.id);
                proof {
                    assert(side_model(side@) =~= had.remove(was.id));
                }
                if let Some(events) = waiting {
                    let mut more = events;
                    let ghost own = events_model(span.events@);
                    let ghost extra = events_model(more@);
                    assert(had[was.id] == extra);
                    span.events.append(&mut more);
                    assert(events_model(span.events@) =~= own + extra);
                }
                assert(span@ == span_joined(had, was));
                out.push(span);
                assert(records_model(out@) =~= sent.push(span@));
                proof {
                    assert(given.take(i + 1).drop_last() =~= given.take(i as int));
                    assert(given.take(i + 1).last() == given[i as int]);
                }
            }
            i = i + 1;
        }
        assert(given.take(i as int) =~= given);
        out
    }

    /// Lets events wait for their spans. Gives those that have to go.
    pub fn flush_event_batch(side: &mut SideEvents, capacity: usize, batch: Vec<EventMessage>) -> (
    lost: Vec<EventRecord>)
        requires
            old(side).wf(),
        ensures
            final(side).wf(),
            side_model(final(side)@) == events_parked(
                side_model(old(side)@),
                capacity as nat,
                messages_model(batch@),
            ),
            events_model(lost@) == events_lost(
                side_model(old(side)@),
                capacity as nat,
                messages_model(batch@),
            ),
    {
        let mut lost: Vec<EventRecord> = Vec::new();
        assert(events_model(lost@) =~= Seq::empty());
        let ghost start = side_model(side@);
        let ghost given = messages_model(batch@);
        let mut rest = batch;
        let mut todo: Vec<EventMessage> = Vec::new();
        // The batch is turned round so that it can be taken from the end.
        let mut turned: usize = 0;
        let total: usize = rest.len();
        while turned < total
            invariant
                total == batch@.len(),
                turned <= total,
                rest@ == batch@.take(total - turned),
                todo@.len() == turned,
                forall|j: int|
                    0 <= j < turned ==> (#[trigger] todo@[j]) == batch@[total - 1 - j],
            decreases total - turned,
        {
            if let Some(m) = rest.pop() {
                assert(rest@ =~= batch@.take(total - turned - 1));
                todo.push(m);
            }
            turned = turned + 1;
        }
        let mut i: usize = 0;
        assert(given.take(0) =~= Seq::empty());
        while i < total
            invariant
                given == messages_model(batch@),
                total == batch@.len(),
                i <= total,
                side.wf(),
                todo@.len() == total - i,
                forall|j: int|
                    0 <= j < total - i ==> (#[trigger] todo@[j]) == batch@[total - 1 - j],
                side_model(side@) == events_parked(start, capacity as nat, given.take(i as int)),
                events_model(lost@) == events_lost(start, capacity as nat, given.take(i as int)),
            decreases total - i,
        {
            assert(todo@.last() == batch@[i as int]);
            if let Some(m) = todo.pop() {
                assert(m@ == given[i as int]);
                let ghost had = events_model(lost@);
                let mut gone = Self::park(side, capacity, m);
                let ghost more = events_model(gone@);
                lost.append(&mut gone);
                proof {
                    assert(events_model(lost@) =~= had + more);
                    assert(given.take(i + 1).drop_last() =~= given.take(i as int));
                    assert(given.take(i + 1).last() == given[i as int]);
                }
            }
            i = i + 1;
        }
        assert(given.take(i as int) =~= given);
        lost
    }

    /// Lets an event wait for its span. Gives the events that have to go.
    fn park(side: &mut SideEvents, capacity: usize, m: EventMessage) -> (lost: Vec<EventRecord>)
        requires
            old(side).wf(),
        ensures
            final(side).wf(),
            side_model(final(side)@) == event_parked(side_model(old(side)@), capacity as nat, m@),
            events_model(lost@) == event_lost(side_model(old(side)@), capacity as nat, m@),
    {
        let mut lost: Vec<EventRecord> = Vec::new();
        assert(events_model(lost@) =~= Seq::empty());
        let ghost start = side@;
        let ghost had = side_model(side@);
        let parent: u64 = m.parent_actual_id;
        let ghost rec = m.record@;
        proof {
            side_ids(start);
        }
        match side.remove(&parent) {
            Some(events) => {
                let mut more = events;
                let ghost own = events_model(more@);
                assert(had[parent] == own);
                more.push(m.record);
                assert(events_model(more@) =~= own.push(rec));
                side.insert(parent, more);
                assert(side_model(side@) =~= had.insert(parent, own.push(rec)));
            },
            None => {
                assert(side@ =~= start);
                proof {
                    first_is_smallest(side);
                }
                let n: usize = side.len();
                if n >= capacity && n > 0 {
                    let oldest: u64 = *side.key_at(0);
                    match side.remove(&oldest) {
                        Some(gone) => {
                            assert(events_model(gone@) == had[oldest]);
                            lost = gone;
                        },
                        None => {},
                    }
                    assert(side_model(side@) =~= without_oldest(had));
                } else if n == 0 {
                    proof {
                        assert forall|id: u64| !is_smallest(had.dom(), id) by {
                            assert(!had.dom().contains(id));
                        }
                    }
                }
                let ghost room = side_model(side@);
                let mut first: Vec<EventRecord> = Vec::new();
                first.push(m.record);
                assert(events_model(first@) =~= seq![rec]);
                side.insert(parent, first);
                assert(side_model(side@) =~= room.insert(parent, seq![rec]));
            },
        }
        lost
    }
}

/// Events never wait for more spans than there is room for, except that there
/// is always room for one.
pub proof fn waiting_stays_bounded(
    side: Map<u64, Seq<EventRecordModel>>,
    capacity: nat,
    batch: Seq<MessageModel>,
)
    requires
        side.dom().finite(),
        side.dom().len() <= capacity || side.dom().len() <= 1,
    ensures
        events_parked(side, capacity, batch).dom().finite(),
        ({
            let n = events_parked(side, capacity, batch).dom().len();
            n <= capacity || n <= 1
        }),
    decreases batch.len(),
{
    if batch.len() > 0 {
        waiting_stays_bounded(side, capacity, batch.drop_last());
        let before = events_parked(side, capacity, batch.drop_last());
        let m = batch.last();
        let after = event_parked(before, capacity, m);
        if before.dom().contains(m.parent) {
            assert(after.dom() =~= before.dom());
        } else if before.dom().len() >= capacity {
            if exists|id: u64| is_smallest(before.dom(), id) {
                let k = choose|id: u64| is_smallest(before.dom(), id);
                assert(is_smallest(before.dom(), k));
                assert(without_oldest(before).dom() =~= before.dom().remove(k));
                assert(after.dom() =~= before.dom().remove(k).insert(m.parent));
            } else {
                if before.dom().len() > 0 {
                    smallest_exists(before.dom());
                }
                assert(after.dom() =~= before.dom().insert(m.parent));
            }
        } else {
            assert(after.dom() =~= before.dom().insert(m.parent));
        }
    }
}

/// Some ids have a smallest one.
pub proof fn smallest_exists(ids: Set<u64>)
    requires
        ids.finite(),
        ids.len() > 0,
    ensures
        exists|id: u64| is_smallest(ids, id),
    decreases ids.len(),
{
    let a = ids.choose();
    let rest = ids.remove(a);
    if rest.len() == 0 {
        assert(is_smallest(ids, a)) by {
            assert forall|other: u64| #[trigger] ids.contains(other) implies a <= other by {
                if other != a {
                    assert(rest.contains(other));
                }
            }
        }
    } else {
        smallest_exists(rest);
        let b = choose|id: u64| is_smallest(rest, id);
        let low = if a < b { a } else { b };
        assert(is_smallest(ids, low)) by {
            assert(rest.contains(b));
            assert forall|other: u64| #[trigger] ids.contains(other) implies low <= other by {
                if other != a {
                    assert(rest.contains(other));
                }
            }
        }
    }
}

/// An event that arrives before its span is handed out with it, and then
/// waits no more.
pub proof fn early_event_joins_its_span(
    side: Map<u64, Seq<EventRecordModel>>,
    capacity: nat,
    m: MessageModel,
    span: SpanRecordModel,
)
    requires
        span.id == m.parent,
    ensures
        ({
            let waiting = event_parked(side, capacity, m);
            let (left, out) = spans_joined(waiting, seq![span]);
            &&& out.len() == 1
            &&& out[0].events.last() == m.record
            &&& !left.dom().contains(span.id)
        }),
{
    let waiting = event_parked(side, capacity, m);
    let one = seq![span];
    assert(one.drop_last() =~= Seq::empty());
    assert(spans_joined(waiting, one.drop_last()) == (waiting, Seq::<SpanRecordModel>::empty()));
    assert(waiting[m.parent].len() > 0);
    assert(waiting[m.parent].last() == m.record);
    assert((span.events + waiting[m.parent]).last() == m.record);
}

} // verus!
