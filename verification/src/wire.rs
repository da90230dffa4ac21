//! From recorded spans and events to the form in which they travel.

use vstd::prelude::*;

use crate::cache::record::{
    compact_chars, values_model, EventRecord, EventRecordModel, FieldList, FieldValue, SpanRecord,
    SpanRecordModel, ValueKind, ValueModel,
};
use crate::number::{
    digits_value, digits_write_their_number, signed_digits_write_their_number,
};
use crate::protocol::{
    fields_model, kinds_model, EventModel, SpanModel, Text, WireEvent, WireFieldValue, WireKind,
    WireSpan,
};

verus! {

/// The kind in which a value travels. All strings travel alike.
pub open spec fn wire_kind(kind: ValueKind) -> WireKind {
    match kind {
        ValueKind::U64 => WireKind::U64,
        ValueKind::I64 => WireKind::I64,
        ValueKind::F64 => WireKind::F64,
        ValueKind::Bool => WireKind::Bool,
        _ => WireKind::Str,
    }
}

/// The kinds in which fields travel.
pub open spec fn wire_kinds(fields: Seq<(Text, ValueModel)>) -> Seq<WireKind> {
    fields.map_values(|f: (Text, ValueModel)| wire_kind(f.1.kind))
}

/// The pairs of field names and printed values that travel.
pub open spec fn wire_fields(fields: Seq<(Text, ValueModel)>) -> Seq<(Text, Text)> {
    fields.map_values(|f: (Text, ValueModel)| (f.0, f.1.text))
}

/// The form in which a field value travels.
pub fn field_to_wire(value: &FieldValue) -> (r: WireFieldValue)
    ensures
        r@ == value@.text,
        r.kind() == wire_kind(value@.kind),
{
    match value {
        FieldValue::U64(v) => WireFieldValue::U64(*v),
        FieldValue::I64(v) => WireFieldValue::I64(*v),
        FieldValue::F64(s) => WireFieldValue::F64(s.clone()),
        FieldValue::Bool(v) => WireFieldValue::Bool(*v),
        FieldValue::Str(s) => WireFieldValue::Str((*s).to_owned()),
        FieldValue::SmallString(s) => WireFieldValue::Str(compact_chars(s).to_owned()),
        FieldValue::SharedString(s) => WireFieldValue::Str(s.as_str().to_owned()),
        FieldValue::Owned(s) => WireFieldValue::Str(s.clone()),
    }
}

/// Ties the clock that only goes forward, by which spans are timed, to the
/// wall clock: what both said at one moment.
#[derive(Debug, Clone, Copy, PartialEq, Eq, Structural)]
pub struct TimeBase {
    /// The reading of the clock that only goes forward, in nanoseconds.
    pub instant_at_start: u64,
    /// The reading of the wall clock, in nanoseconds since the Unix epoch.
    pub systime_at_start: i64,
}

impl TimeBase {
    /// What both clocks say now.
    pub fn now(instant: u64, systime: i64) -> (r: Self)
        ensures
            r.instant_at_start == instant,
            r.systime_at_start == systime,
    {
        TimeBase { instant_at_start: instant, systime_at_start: systime }
    }

    /// The nanoseconds since the Unix epoch at a time of the clock that only
    /// goes forward. Times before the start count as the start, times before
    /// the epoch as the epoch.
    pub open spec fn spec_ns(self, t: u64) -> int {
        let offset = if t >= self.instant_at_start {
            t - self.instant_at_start
        } else {
            0
        };
        let wall = self.systime_at_start + offset;
        if wall < 0 {
            0
        } else if wall > u64::MAX {
            wall - 0x1_0000_0000_0000_0000
        } else {
            wall
        }
    }

    pub fn ns(&self, t: u64) -> (r: u64)
        ensures
            r == self.spec_ns(t),
    {
        let offset: u64 = t.saturating_sub(self.instant_at_start);
        let wall: i128 = self.systime_at_start as i128 + offset as i128;
        if wall < 0 {
            0
        } else if wall > u64::MAX as i128 {
            (wall - 0x1_0000_0000_0000_0000i128) as u64
        } else {
            wall as u64
        }
    }
}

/// What an event says when it travels.
pub open spec fn wire_event(e: EventRecordModel, base: TimeBase) -> EventModel {
    EventModel {
        name: e.metadata->0.name,
        level: e.metadata->0.level,
        fields: wire_fields(e.fields),
        kinds: wire_kinds(e.fields),
        recorded_at_ns: base.spec_ns(e.recorded_at->0) as u64,
    }
}

/// What a span says when it travels.
pub open spec fn wire_span(s: SpanRecordModel, base: TimeBase) -> SpanModel {
    SpanModel {
        id: s.id,
        parent_id: s.parent_id,
        name: s.metadata.name,
        target: s.metadata.target,
        level: s.metadata.level,
        fields: wire_fields(s.fields),
        kinds: wire_kinds(s.fields),
        events: s.events.map_values(|e: EventRecordModel| wire_event(e, base)),
        opened_at_ns: base.spec_ns(s.opened_at) as u64,
        closed_at_ns: match s.closed_at {
            Some(t) => Some(base.spec_ns(t) as u64),
            None => None,
        },
    }
}

/// The event has been filled in.
pub open spec fn is_filled(e: EventRecordModel) -> bool {
    e.metadata is Some && e.recorded_at is Some
}

/// The form in which fields travel.
fn fields_to_wire(fields: &FieldList) -> (r: Vec<(String, WireFieldValue)>)
    ensures
        fields_model(r@) == wire_fields(values_model(fields@)),
        kinds_model(r@) == wire_kinds(values_model(fields@)),
{
    let mut out: Vec<(String, WireFieldValue)> = Vec::new();
    let mut i: usize = 0;
    while i < fields.len()
        invariant
            i <= fields@.len(),
            out@.len() == i,
            forall|j: int|
                0 <= j < i ==> (#[trigger] out@[j]).0@ == fields@[j].0@ && out@[j].1@
                    == fields@[j].1@.text && out@[j].1.kind() == wire_kind(fields@[j].1@.kind),
        decreases fields@.len() - i,
    {
        out.push((fields[i].0.clone(), field_to_wire(&fields[i].1)));
        i = i + 1;
    }
    assert(fields_model(out@) =~= wire_fields(values_model(fields@)));
    assert(kinds_model(out@) =~= wire_kinds(values_model(fields@)));
    out
}

/// A value travels as the number or the truth value that it is, and every
/// string as a string.
pub open spec fn travels_as(recorded: ValueKind, sent: WireKind) -> bool {
    &&& sent is U64 <==> recorded is U64
    &&& sent is I64 <==> recorded is I64
    &&& sent is F64 <==> recorded is F64
    &&& sent is Bool <==> recorded is Bool
}

/// The fields that are sent are the recorded ones, none more and none less and
/// in their order: each with its name, its printed value and its kind.
pub open spec fn carries_fields(
    sent: Seq<(String, WireFieldValue)>,
    recorded: Seq<(Text, ValueModel)>,
) -> bool {
    &&& sent.len() == recorded.len()
    &&& forall|i: int|
        0 <= i < sent.len() ==> {
            &&& (#[trigger] sent[i]).0@ == recorded[i].0
            &&& sent[i].1@ == recorded[i].1.text
            &&& travels_as(recorded[i].1.kind, sent[i].1.kind())
        }
}

proof fn fields_are_carried(
    sent: Seq<(String, WireFieldValue)>,
    recorded: Seq<(Text, ValueModel)>,
)
    requires
        fields_model(sent) == wire_fields(recorded),
        kinds_model(sent) == wire_kinds(recorded),
    ensures
        carries_fields(sent, recorded),
{
    assert(fields_model(sent).len() == sent.len());
    assert(wire_fields(recorded).len() == recorded.len());
    assert forall|i: int| 0 <= i < sent.len() implies {
        &&& (#[trigger] sent[i]).0@ == recorded[i].0
        &&& sent[i].1@ == recorded[i].1.text
        &&& travels_as(recorded[i].1.kind, sent[i].1.kind())
    } by {
        assert(fields_model(sent)[i] == (sent[i].0@, sent[i].1@));
        assert(wire_fields(recorded)[i] == (recorded[i].0, recorded[i].1.text));
        assert(kinds_model(sent)[i] == sent[i].1.kind());
        assert(wire_kinds(recorded)[i] == wire_kind(recorded[i].1.kind));
    }
}

/// The form in which an event travels.
pub fn event_to_wire(event: &EventRecord, base: TimeBase) -> (r: WireEvent)
    requires
        is_filled(event@),
    ensures
        r@ == wire_event(event@, base),
        r.name@ == event@.metadata->0.name,
        r.level == event@.metadata->0.level,
        carries_fields(r.fields@, event@.fields),
        r.recorded_at_ns == base.spec_ns(event@.recorded_at->0),
{
    let metadata = event.metadata();
    let r = WireEvent {
        name: metadata.name.clone(),
        level: metadata.level,
        fields: fields_to_wire(&event.fields),
        recorded_at_ns: base.ns(event.recorded_at()),
    };
    proof {
        fields_are_carried(r.fields@, event@.fields);
    }
    r
}

/// The form in which a span travels.
pub fn span_to_wire(record: &SpanRecord, base: TimeBase) -> (r: WireSpan)
    requires
        forall|i: int| 0 <= i < record@.events.len() ==> is_filled(#[trigger] record@.events[i]),
    ensures
        r@ == wire_span(record@, base),
        r.id == record@.id,
        r.parent_id == record@.parent_id,
        r.name@ == record@.metadata.name,
        r.target@ == record@.metadata.target,
        r.level == record@.metadata.level,
        carries_fields(r.fields@, record@.fields),
        r.events@.len() == record@.events.len(),
        forall|i: int|
            0 <= i < r.events@.len() ==> {
                let sent = #[trigger] r.events@[i];
                let kept = record@.events[i];
                &&& sent.name@ == kept.metadata->0.name
                &&& sent.level == kept.metadata->0.level
                &&& carries_fields(sent.fields@, kept.fields)
                &&& sent.recorded_at_ns == base.spec_ns(kept.recorded_at->0)
            },
        r.opened_at_ns == base.spec_ns(record@.opened_at),
        r.closed_at_ns is Some <==> record@.closed_at is Some,
        r.closed_at_ns is Some ==> r.closed_at_ns->0 == base.spec_ns(record@.closed_at->0),
{
    let mut events: Vec<WireEvent> = Vec::new();
    let mut i: usize = 0;
    while i < record.events.len()
        invariant
            forall|k: int|
                0 <= k < record@.events.len() ==> is_filled(#[trigger] record@.events[k]),
            i <= record.events@.len(),
            events@.len() == i,
            forall|j: int|
                0 <= j < i ==> {
                    let sent = #[trigger] events@[j];
                    let kept = record@.events[j];
                    &&& sent@ == wire_event(kept, base)
                    &&& sent.name@ == kept.metadata->0.name
                    &&& sent.level == kept.metadata->0.level
                    &&& carries_fields(sent.fields@, kept.fields)
                    &&& sent.recorded_at_ns == base.spec_ns(kept.recorded_at->0)
                },
        decreases record.events@.len() - i,
    {
        assert(record@.events[i as int] == record.events@[i as int]@);
        events.push(event_to_wire(&record.events[i], base));
        i = i + 1;
    }
    let r = WireSpan {
        id: record.id,
        parent_id: record.parent_id,
        name: record.metadata.name.clone(),
        target: record.metadata.target.clone(),
        level: record.metadata.level,
        fields: fields_to_wire(&record.fields),
        events,
        opened_at_ns: base.ns(record.opened_at),
        closed_at_ns: match record.closed_at {
            Some(t) => Some(base.ns(t)),
            None => None,
        },
    };
    assert(r@.events =~= wire_span(record@, base).events);
    proof {
        fields_are_carried(r.fields@, record@.fields);
    }
    r
}

/// Times keep their order when they travel, as long as they can be written.
pub proof fn times_keep_their_order(base: TimeBase, a: u64, b: u64)
    requires
        a <= b,
        base.systime_at_start + b <= u64::MAX,
    ensures
        base.spec_ns(a) <= base.spec_ns(b),
{
}

/// Times keep their distance when they travel, from the start on and as long
/// as they can be written, and the start travels as what the wall clock said.
pub proof fn times_keep_their_distance(base: TimeBase, a: u64, b: u64)
    requires
        base.instant_at_start <= a <= b,
        0 <= base.systime_at_start,
        base.systime_at_start + b <= u64::MAX,
    ensures
        base.spec_ns(b) - base.spec_ns(a) == b - a,
        base.spec_ns(base.instant_at_start) == base.systime_at_start,
{
}

/// An event arrives with everything that it was recorded with: its name, its
/// level, its time, and its fields in their order, each with its name, its
/// printed value and its kind.
pub proof fn events_arrive_whole(e: EventRecordModel, base: TimeBase)
    ensures
        ({
            let sent = wire_event(e, base);
            &&& sent.name == e.metadata->0.name
            &&& sent.level == e.metadata->0.level
            &&& sent.recorded_at_ns == base.spec_ns(e.recorded_at->0)
            &&& sent.fields.len() == e.fields.len()
            &&& sent.kinds.len() == e.fields.len()
            &&& forall|i: int|
                0 <= i < e.fields.len() ==> {
                    &&& (#[trigger] sent.fields[i]).0 == e.fields[i].0
                    &&& sent.fields[i].1 == e.fields[i].1.text
                    &&& travels_as(e.fields[i].1.kind, sent.kinds[i])
                }
        }),
{
}

/// A span arrives with everything that it was recorded with: what it is and
/// where it hangs, its times, its fields in their order, and its events in
/// their order, each of them whole.
pub proof fn spans_arrive_whole(s: SpanRecordModel, base: TimeBase)
    ensures
        ({
            let sent = wire_span(s, base);
            &&& sent.id == s.id
            &&& sent.parent_id == s.parent_id
            &&& sent.name == s.metadata.name
            &&& sent.target == s.metadata.target
            &&& sent.level == s.metadata.level
            &&& sent.opened_at_ns == base.spec_ns(s.opened_at)
            &&& sent.closed_at_ns is Some <==> s.closed_at is Some
            &&& s.closed_at is Some ==> sent.closed_at_ns->0 == base.spec_ns(s.closed_at->0)
            &&& sent.fields.len() == s.fields.len()
            &&& sent.kinds.len() == s.fields.len()
            &&& forall|i: int|
                0 <= i < s.fields.len() ==> {
                    &&& (#[trigger] sent.fields[i]).0 == s.fields[i].0
                    &&& sent.fields[i].1 == s.fields[i].1.text
                    &&& travels_as(s.fields[i].1.kind, sent.kinds[i])
                }
            &&& sent.events.len() == s.events.len()
            &&& forall|k: int|
                0 <= k < s.events.len() ==> {
                    let event = #[trigger] sent.events[k];
                    let kept = s.events[k];
                    &&& event.name == kept.metadata->0.name
                    &&& event.level == kept.metadata->0.level
                    &&& event.recorded_at_ns == base.spec_ns(kept.recorded_at->0)
                    &&& event.fields.len() == kept.fields.len()
                    &&& event.kinds.len() == kept.fields.len()
                    &&& forall|i: int|
                        0 <= i < kept.fields.len() ==> {
                            &&& (#[trigger] event.fields[i]).0 == kept.fields[i].0
                            &&& event.fields[i].1 == kept.fields[i].1.text
                            &&& travels_as(kept.fields[i].1.kind, event.kinds[i])
                        }
                }
        }),
{
    assert forall|k: int| 0 <= k < s.events.len() implies #[trigger] wire_span(s, base).events[k]
        == wire_event(s.events[k], base) by {
    }
}

/// A value prints as what it is, where it was recorded and where it arrives:
/// a number in its digits, a truth value as its word, and a string as it is.
pub proof fn values_print_as_what_they_are(n: u64, i: i64, b: bool, s: String)
    ensures
        digits_value(WireFieldValue::U64(n)@) == n,
        digits_value(FieldValue::U64(n)@.text) == n,
        WireFieldValue::I64(i)@ == FieldValue::I64(i)@.text,
        i >= 0 ==> digits_value(WireFieldValue::I64(i)@) == i,
        i < 0 ==> WireFieldValue::I64(i)@[0] == '-' && digits_value(
            WireFieldValue::I64(i)@.skip(1),
        ) == -i,
        WireFieldValue::Bool(b)@ == FieldValue::Bool(b)@.text,
        b ==> WireFieldValue::Bool(b)@ == "true"@,
        !b ==> WireFieldValue::Bool(b)@ == "false"@,
        WireFieldValue::Str(s)@ == s@,
        WireFieldValue::F64(s)@ == s@,
        FieldValue::Owned(s)@.text == s@,
        FieldValue::F64(s)@.text == s@,
{
    digits_write_their_number(n as nat);
    signed_digits_write_their_number(i as int);
}

} // verus!
