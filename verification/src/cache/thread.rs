//! What each thread keeps for itself.

use vstd::prelude::*;

use crate::cache::driver::{messages_model, records_model, EventMessage, MessageModel};
use crate::cache::record::{SpanRecord, SpanRecordModel};

verus! {

/// How many span ids a thread sets aside at a time.
pub const ID_BATCH: u64 = 1024;

/// A span that is entered on a thread.
#[derive(Debug, Clone, Copy, PartialEq, Eq, Structural)]
pub struct StackedSpan {
    pub tracing_id: u64,
    /// The id under which the span is recorded; meaningless for a span that
    /// is not recorded.
    pub actual_id: u64,
}

/// What a thread keeps for itself.
pub struct ThreadState {
    /// The entered spans, the innermost last.
    stack: Vec<StackedSpan>,
    /// Closed spans that were not sent yet.
    pending_spans: Vec<SpanRecord>,
    /// Events that were not sent yet.
    pending_events: Vec<EventMessage>,
    /// Tells the lane of the thread.
    shard_key: u64,
    /// The next of the span ids that the thread has set aside. A multiple of
    /// the batch size says that there are none left.
    id_cursor: u64,
}

pub ghost struct ThreadModel {
    pub stack: Seq<StackedSpan>,
    pub spans: Seq<SpanRecordModel>,
    pub events: Seq<MessageModel>,
    pub shard_key: u64,
    pub id_cursor: u64,
}

impl View for ThreadState {
    type V = ThreadModel;

    closed spec fn view(&self) -> ThreadModel {
        ThreadModel {
            stack: self.stack@,
            spans: records_model(self.pending_spans@),
            events: messages_model(self.pending_events@),
            shard_key: self.shard_key,
            id_cursor: self.id_cursor,
        }
    }
}

impl ThreadModel {
    /// The innermost entered span.
    pub open spec fn top(self) -> Option<StackedSpan> {
        if self.stack.len() > 0 {
            Some(self.stack.last())
        } else {
            None
        }
    }
}

impl ThreadState {
    /// What a thread starts with that is the next to come.
    pub fn register(next_key: &mut u64) -> (t: Self)
        ensures
            t@ == (ThreadModel {
                stack: Seq::empty(),
                spans: Seq::empty(),
                events: Seq::empty(),
                shard_key: *old(next_key),
                id_cursor: 0,
            }),
            *final(next_key) == if *old(next_key) == u64::MAX {
                0
            } else {
                (*old(next_key) + 1) as u64
            },
    {
        let shard_key: u64 = *next_key;
        *next_key = if shard_key == u64::MAX {
            0
        } else {
            shard_key + 1
        };
        let t = ThreadState {
            stack: Vec::new(),
            pending_spans: Vec::new(),
            pending_events: Vec::new(),
            shard_key,
            id_cursor: 0,
        };
        assert(t@.stack =~= Seq::empty());
        assert(t@.spans =~= Seq::empty());
        assert(t@.events =~= Seq::empty());
        t
    }

    pub fn shard_key(&self) -> (k: u64)
        ensures
            k == self@.shard_key,
    {
        self.shard_key
    }

    /// The innermost entered span.
    pub fn stack_top(&self) -> (r: Option<StackedSpan>)
        ensures
            r == self@.top(),
    {
        let n: usize = self.stack.len();
        if n > 0 {
            Some(self.stack[n - 1])
        } else {
            None
        }
    }

    /// Enters a span.
    pub fn stack_push(&mut self, entry: StackedSpan)
        ensures
            final(self)@ == (ThreadModel { stack: old(self)@.stack.push(entry), ..old(self)@ }),
    {
        self.stack.push(entry);
    }

    /// Leaves the innermost span, if one is entered.
    pub fn stack_pop(&mut self)
        ensures
            final(self)@ == (ThreadModel {
                stack: if old(self)@.stack.len() > 0 {
                    old(self)@.stack.drop_last()
                } else {
                    old(self)@.stack
                },
                ..old(self)@
            }),
    {
        let _ = self.stack.pop();
    }

    /// Keeps a closed span to be sent. Tells how many are kept.
    pub fn pending_push_span(&mut self, record: SpanRecord) -> (n: usize)
        ensures
            final(self)@ == (ThreadModel { spans: old(self)@.spans.push(record@), ..old(self)@ }),
            n == final(self)@.spans.len(),
    {
        let ghost before = self@.spans;
        self.pending_spans.push(record);
        assert(self@.spans =~= before.push(record@));
        self.pending_spans.len()
    }

    /// Keeps an event to be sent. Tells how many are kept.
    pub fn pending_push_event(&mut self, msg: EventMessage) -> (n: usize)
        ensures
            final(self)@ == (ThreadModel { events: old(self)@.events.push(msg@), ..old(self)@ }),
            n == final(self)@.events.len(),
    {
        let ghost before = self@.events;
        self.pending_events.push(msg);
        assert(self@.events =~= before.push(msg@));
        self.pending_events.len()
    }

    /// Takes out the closed spans that are to be sent.
    pub fn pending_drain_spans(&mut self) -> (r: Vec<SpanRecord>)
        ensures
            records_model(r@) == old(self)@.spans,
            final(self)@ == (ThreadModel { spans: Seq::empty(), ..old(self)@ }),
    {
        let mut out: Vec<SpanRecord> = Vec::new();
        std::mem::swap(&mut out, &mut self.pending_spans);
        assert(self@.spans =~= Seq::empty());
        out
    }

    /// Takes out the events that are to be sent.
    pub fn pending_drain_events(&mut self) -> (r: Vec<EventMessage>)
        ensures
            messages_model(r@) == old(self)@.events,
            final(self)@ == (ThreadModel { events: Seq::empty(), ..old(self)@ }),
    {
        let mut out: Vec<EventMessage> = Vec::new();
        std::mem::swap(&mut out, &mut self.pending_events);
        assert(self@.events =~= Seq::empty());
        out
    }

    /// Whether there is a span id left to take.
    pub fn has_ids(&self, high_water: u64) -> (r: bool)
        ensures
            r == ids_left(high_water, self@.id_cursor),
    {
        high_water <= u64::MAX - ID_BATCH && self.id_cursor < u64::MAX
    }

    /// Takes the next span id out of those that are set aside, or sets more
    /// aside.
    pub fn allocate_actual_id(&mut self, high_water: &mut u64) -> (id: u64)
        requires
            ids_left(*old(high_water), old(self)@.id_cursor),
        ensures
            ({
                let (taken, water, cursor) = id_taken(*old(high_water), old(self)@.id_cursor);
                &&& id == taken
                &&& *final(high_water) == water
                &&& final(self)@ == (ThreadModel { id_cursor: cursor, ..old(self)@ })
            }),
    {
        let cursor: u64 = self.id_cursor;
        if cursor % ID_BATCH != 0 {
            self.id_cursor = cursor + 1;
            cursor
        } else {
            let start: u64 = *high_water;
            *high_water = start + ID_BATCH;
            self.id_cursor = start + 1;
            start
        }
    }
}

/// There are span ids that were never taken.
pub open spec fn ids_left(high_water: u64, cursor: u64) -> bool {
    high_water + ID_BATCH <= u64::MAX && cursor < u64::MAX
}

/// The next span id, and how many are set aside and where the thread stands
/// after it was taken.
pub open spec fn id_taken(high_water: u64, cursor: u64) -> (u64, u64, u64) {
    if cursor % ID_BATCH != 0 {
        (cursor, high_water, (cursor + 1) as u64)
    } else {
        (high_water, (high_water + ID_BATCH) as u64, (high_water + 1) as u64)
    }
}

/// `id` is still set aside for the thread that stands at `cursor`.
pub open spec fn set_aside(cursor: u64, id: u64) -> bool {
    cursor % ID_BATCH != 0 && cursor <= id && id as int / ID_BATCH as int == cursor as int
        / ID_BATCH as int
}

/// A thread stands where it may: at the end of a batch, or within one that was
/// set aside.
pub open spec fn stands_well(high_water: u64, cursor: u64) -> bool {
    &&& high_water % ID_BATCH == 0
    &&& cursor <= high_water
}

/// No id is taken twice. What a thread takes was set aside for it or never
/// handed out before, no longer is afterwards, and what is set aside for
/// another thread stays so.
pub proof fn ids_are_taken_once(high_water: u64, mine: u64, other: u64, id: u64)
    requires
        ids_left(high_water, mine),
        stands_well(high_water, mine),
        stands_well(high_water, other),
        // The two threads work on batches of their own.
        mine % ID_BATCH == 0 || other % ID_BATCH == 0 || mine as int / ID_BATCH as int != other
            as int / ID_BATCH as int,
    ensures
        ({
            let (taken, water, cursor) = id_taken(high_water, mine);
            &&& stands_well(water, cursor)
            &&& stands_well(water, other)
            &&& water >= high_water
            &&& taken < water
            &&& taken >= high_water || set_aside(mine, taken)
            &&& !set_aside(cursor, taken)
            &&& !set_aside(other, taken)
            &&& set_aside(cursor, id) ==> set_aside(mine, id) || id >= high_water
            &&& cursor % ID_BATCH == 0 || other % ID_BATCH == 0 || cursor as int / ID_BATCH as int
                != other as int / ID_BATCH as int
        }),
{
}

/// Within a batch, ids ascend.
pub proof fn ids_ascend(high_water: u64, cursor: u64)
    requires
        ids_left(high_water, cursor),
        stands_well(high_water, cursor),
    ensures
        ({
            let (first, water, next) = id_taken(high_water, cursor);
            ids_left(water, next) ==> first < id_taken(water, next).0
        }),
{
}

} // verus!
