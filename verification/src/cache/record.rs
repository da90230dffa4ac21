//! What is recorded of spans and events.

use std::sync::Arc;

use compact_str::CompactString;
use vstd::prelude::*;

use crate::protocol::{Text, WireLevel};
use crate::text::{contains_text, decimal, has_part, i64_text, same_text, signed_decimal, u64_text};

verus! {

#[verifier::external_type_specification]
#[verifier::external_body]
pub struct ExCompactString(CompactString);

/// The characters that a compact string holds.
pub uninterp spec fn compact_text(s: CompactString) -> Seq<char>;

/// `CompactString::from` copies a string slice; the copy holds the same
/// characters.
#[verifier::external_body]
pub(crate) fn compact(text: &str) -> (r: CompactString)
    ensures
        compact_text(r) == text@,
{
    CompactString::from(text)
}

/// `CompactString::as_str` lends out all that the string holds.
#[verifier::external_body]
pub(crate) fn compact_chars(s: &CompactString) -> (r: &str)
    ensures
        r@ == compact_text(*s),
{
    s.as_str()
}

/// A captured field value.
pub enum FieldValue {
    U64(u64),
    I64(i64),
    /// A floating-point value, held as its shortest decimal rendering.
    F64(String),
    Bool(bool),
    /// A string known when the program was built.
    Str(&'static str),
    SmallString(CompactString),
    SharedString(Arc<String>),
    Owned(String),
}

/// The kinds of captured field values.
pub ghost enum ValueKind {
    U64,
    I64,
    F64,
    Bool,
    Str,
    SmallString,
    SharedString,
    Owned,
}

/// What a captured field value is: its kind, and what it prints as.
pub ghost struct ValueModel {
    pub kind: ValueKind,
    pub text: Text,
}

impl View for FieldValue {
    type V = ValueModel;

    open spec fn view(&self) -> ValueModel {
        match *self {
            FieldValue::U64(v) => ValueModel { kind: ValueKind::U64, text: decimal(v as nat) },
            FieldValue::I64(v) => ValueModel {
                kind: ValueKind::I64,
                text: signed_decimal(v as int),
            },
            FieldValue::F64(s) => ValueModel { kind: ValueKind::F64, text: s@ },
            FieldValue::Bool(v) => ValueModel {
                kind: ValueKind::Bool,
                text: if v { "true"@ } else { "false"@ },
            },
            FieldValue::Str(s) => ValueModel { kind: ValueKind::Str, text: s@ },
            FieldValue::SmallString(s) => ValueModel {
                kind: ValueKind::SmallString,
                text: compact_text(s),
            },
            FieldValue::SharedString(s) => ValueModel {
                kind: ValueKind::SharedString,
                text: (*s)@,
            },
            FieldValue::Owned(s) => ValueModel { kind: ValueKind::Owned, text: s@ },
        }
    }
}

impl FieldValue {
    /// The value as it prints.
    pub fn to_display_string(&self) -> (r: CompactString)
        ensures
            compact_text(r) == self@.text,
    {
        match self {
            FieldValue::U64(v) => compact(u64_text(*v).as_str()),
            FieldValue::I64(v) => compact(i64_text(*v).as_str()),
            FieldValue::F64(s) => compact(s.as_str()),
            FieldValue::Bool(v) => if *v { compact("true") } else { compact("false") },
            FieldValue::Str(s) => compact(s),
            FieldValue::SmallString(s) => compact(compact_chars(s)),
            FieldValue::SharedString(s) => compact(s.as_str()),
            FieldValue::Owned(s) => compact(s.as_str()),
        }
    }

    /// Whether `needle` is a part of what the value prints as.
    pub fn contains(&self, needle: &str) -> (r: bool)
        ensures
            r == has_part(self@.text, needle@),
    {
        match self {
            FieldValue::Str(s) => contains_text(s, needle),
            FieldValue::SmallString(s) => contains_text(compact_chars(s), needle),
            FieldValue::SharedString(s) => contains_text(s.as_str(), needle),
            FieldValue::Owned(s) => contains_text(s.as_str(), needle),
            other => {
                let printed = other.to_display_string();
                contains_text(compact_chars(&printed), needle)
            },
        }
    }

    /// The same value.
    pub fn duplicate(&self) -> (r: Self)
        ensures
            r@ == self@,
    {
        match self {
            FieldValue::U64(v) => FieldValue::U64(*v),
            FieldValue::I64(v) => FieldValue::I64(*v),
            FieldValue::F64(s) => FieldValue::F64(s.clone()),
            FieldValue::Bool(v) => FieldValue::Bool(*v),
            FieldValue::Str(s) => FieldValue::Str(s),
            FieldValue::SmallString(s) => FieldValue::SmallString(compact(compact_chars(s))),
            FieldValue::SharedString(s) => FieldValue::SharedString(s.clone()),
            FieldValue::Owned(s) => FieldValue::Owned(s.clone()),
        }
    }
}

/// Field names and values, in the order in which they were first recorded.
pub type FieldList = Vec<(String, FieldValue)>;

/// The pairs of field names and values.
pub open spec fn values_model(fields: Seq<(String, FieldValue)>) -> Seq<(Text, ValueModel)> {
    fields.map_values(|f: (String, FieldValue)| (f.0@, f.1@))
}

/// `i` is the position of the first field with the given name.
pub open spec fn named_first(fields: Seq<(Text, ValueModel)>, name: Text, i: int) -> bool {
    &&& 0 <= i < fields.len()
    &&& fields[i].0 == name
    &&& forall|j: int| 0 <= j < i ==> (#[trigger] fields[j]).0 != name
}

/// The value of the first field with the given name.
pub open spec fn value_of(fields: Seq<(Text, ValueModel)>, name: Text) -> Option<ValueModel> {
    if exists|i: int| named_first(fields, name, i) {
        Some(fields[choose|i: int| named_first(fields, name, i)].1)
    } else {
        None
    }
}

/// The fields after a value has been recorded: it takes the place of an
/// earlier value under the same name.
pub open spec fn field_set(
    fields: Seq<(Text, ValueModel)>,
    name: Text,
    value: ValueModel,
) -> Seq<(Text, ValueModel)> {
    if exists|i: int| named_first(fields, name, i) {
        fields.update(choose|i: int| named_first(fields, name, i), (name, value))
    } else {
        fields.push((name, value))
    }
}

/// The fields after several values have been recorded, one after the other.
pub open spec fn fields_set(
    fields: Seq<(Text, ValueModel)>,
    values: Seq<(Text, ValueModel)>,
) -> Seq<(Text, ValueModel)>
    decreases values.len(),
{
    if values.len() == 0 {
        fields
    } else {
        field_set(fields_set(fields, values.drop_last()), values.last().0, values.last().1)
    }
}

/// The first place of a name is the only first place.
pub proof fn first_is_only(fields: Seq<(Text, ValueModel)>, name: Text, i: int)
    requires
        named_first(fields, name, i),
    ensures
        (choose|k: int| named_first(fields, name, k)) == i,
{
    let k = choose|k: int| named_first(fields, name, k);
    assert(named_first(fields, name, k));
    if k < i {
        assert(fields[k].0 != name);
    } else if i < k {
        assert(fields[i].0 != name);
    }
}

proof fn absent_has_no_first(fields: Seq<(Text, ValueModel)>, name: Text)
    requires
        forall|j: int| 0 <= j < fields.len() ==> (#[trigger] fields[j]).0 != name,
    ensures
        !exists|i: int| named_first(fields, name, i),
{
    assert forall|i: int| !named_first(fields, name, i) by {
        if 0 <= i < fields.len() {
            assert(fields[i].0 != name);
        }
    }
}

/// Where the first field with the given name stands.
fn place_of(fields: &FieldList, name: &str) -> (r: Option<usize>)
    ensures
        match r {
            Some(i) => named_first(values_model(fields@), name@, i as int),
            None => forall|j: int|
                0 <= j < fields@.len() ==> (#[trigger] values_model(fields@)[j]).0 != name@,
        },
{
    let mut i: usize = 0;
    while i < fields.len()
        invariant
            i <= fields.len(),
            forall|j: int| 0 <= j < i ==> (#[trigger] values_model(fields@)[j]).0 != name@,
        decreases fields.len() - i,
    {
        assert(values_model(fields@)[i as int].0 == fields@[i as int].0@);
        if same_text(fields[i].0.as_str(), name) {
            return Some(i);
        }
        i = i + 1;
    }
    None
}

/// The value of the first field with the given name.
pub fn field_get<'a>(fields: &'a FieldList, name: &str) -> (r: Option<&'a FieldValue>)
    ensures
        match r {
            Some(v) => value_of(values_model(fields@), name@) == Some(v@),
            None => value_of(values_model(fields@), name@) is None,
        },
{
    let ghost model = values_model(fields@);
    match place_of(fields, name) {
        Some(i) => {
            proof {
                first_is_only(model, name@, i as int);
            }
            Some(&fields[i].1)
        },
        None => {
            proof {
                absent_has_no_first(model, name@);
            }
            None
        },
    }
}

/// Records a value. It takes the place of an earlier value under the same
/// name.
pub fn set_field(fields: &mut FieldList, name: &str, value: FieldValue)
    ensures
        values_model(final(fields)@) == field_set(values_model(old(fields)@), name@, value@),
{
    let ghost before = values_model(fields@);
    match place_of(fields, name) {
        Some(i) => {
            proof {
                first_is_only(before, name@, i as int);
            }
            fields.set(i, (name.to_owned(), value));
            assert(values_model(fields@) =~= before.update(i as int, (name@, value@)));
        },
        None => {
            proof {
                absent_has_no_first(before, name@);
            }
            fields.push((name.to_owned(), value));
            assert(values_model(fields@) =~= before.push((name@, value@)));
        },
    }
}

/// Records several values, one after the other.
pub fn set_fields(fields: &mut FieldList, values: &FieldList)
    ensures
        values_model(final(fields)@) == fields_set(
            values_model(old(fields)@),
            values_model(values@),
        ),
{
    let ghost start = values_model(fields@);
    let ghost given = values_model(values@);
    let mut i: usize = 0;
    while i < values.len()
        invariant
            given == values_model(values@),
            i <= values@.len(),
            values_model(fields@) == fields_set(start, given.take(i as int)),
        decreases values@.len() - i,
    {
        set_field(fields, values[i].0.as_str(), values[i].1.duplicate());
        proof {
            assert(given.take(i + 1).drop_last() =~= given.take(i as int));
            assert(given.take(i + 1).last() == given[i as int]);
        }
        i = i + 1;
    }
    assert(given.take(i as int) =~= given);
}

/// What was recorded last under a name is what is read, and other names are
/// not touched.
pub proof fn set_is_read_back(
    fields: Seq<(Text, ValueModel)>,
    name: Text,
    value: ValueModel,
    other: Text,
)
    ensures
        value_of(field_set(fields, name, value), name) == Some(value),
        other != name ==> value_of(field_set(fields, name, value), other) == value_of(
            fields,
            other,
        ),
{
    let after = field_set(fields, name, value);
    if exists|i: int| named_first(fields, name, i) {
        let i = choose|i: int| named_first(fields, name, i);
        assert(named_first(fields, name, i));
        assert(after =~= fields.update(i, (name, value)));
        assert forall|j: int| 0 <= j < after.len() implies (#[trigger] after[j]).0 == fields[j].0 by {
        }
        assert(named_first(after, name, i)) by {
            assert forall|j: int| 0 <= j < i implies (#[trigger] after[j]).0 != name by {
                assert(fields[j].0 != name);
            }
        }
        first_is_only(after, name, i);
    } else {
        assert(after =~= fields.push((name, value)));
        let n = fields.len() as int;
        assert forall|j: int| 0 <= j < n implies (#[trigger] fields[j]).0 != name by {
            if fields[j].0 == name {
                first_exists(fields, name, j);
            }
        }
        assert(named_first(after, name, n));
        first_is_only(after, name, n);
    }
    if other != name {
        assert forall|k: int| named_first(after, other, k) <==> named_first(fields, other, k) by {
            if named_first(fields, other, k) {
                assert(after[k] == fields[k]);
                assert forall|j: int| 0 <= j < k implies (#[trigger] after[j]).0 != other by {
                    assert(fields[j].0 != other);
                }
            }
            if named_first(after, other, k) {
                assert(k < fields.len());
                assert(after[k] == fields[k]);
                assert forall|j: int| 0 <= j < k implies (#[trigger] fields[j]).0 != other by {
                    assert(after[j].0 != other);
                }
            }
        }
        if exists|k: int| named_first(fields, other, k) {
            let k = choose|k: int| named_first(fields, other, k);
            assert(named_first(after, other, k));
            first_is_only(after, other, k);
            first_is_only(fields, other, k);
        }
    }
}

/// No name stands twice.
pub open spec fn names_once(fields: Seq<(Text, ValueModel)>) -> bool {
    forall|i: int, j: int|
        0 <= i < j < fields.len() ==> (#[trigger] fields[i]).0 != (#[trigger] fields[j]).0
}

/// A recorded value stands in the place of the earlier one under its name, or
/// behind all others; every other field keeps its place, its kind and its
/// value, and no name comes to stand twice.
pub proof fn other_fields_stay(fields: Seq<(Text, ValueModel)>, name: Text, value: ValueModel)
    ensures
        ({
            let after = field_set(fields, name, value);
            &&& after.contains((name, value))
            &&& after.len() == if exists|i: int| named_first(fields, name, i) {
                fields.len()
            } else {
                fields.len() + 1
            }
            &&& forall|i: int|
                0 <= i < fields.len() && (#[trigger] fields[i]).0 != name ==> after[i] == fields[i]
            &&& names_once(fields) ==> names_once(after)
        }),
{
    let after = field_set(fields, name, value);
    if exists|i: int| named_first(fields, name, i) {
        let i = choose|i: int| named_first(fields, name, i);
        assert(named_first(fields, name, i));
        assert(after[i] == (name, value));
    } else {
        let n = fields.len() as int;
        assert(after[n] == (name, value));
        assert forall|j: int| 0 <= j < n implies (#[trigger] fields[j]).0 != name by {
            if fields[j].0 == name {
                first_exists(fields, name, j);
            }
        }
    }
}

proof fn first_exists(fields: Seq<(Text, ValueModel)>, name: Text, j: int)
    requires
        0 <= j < fields.len(),
        fields[j].0 == name,
    ensures
        exists|i: int| named_first(fields, name, i),
    decreases j,
{
    if exists|i: int| 0 <= i < j && (#[trigger] fields[i]).0 == name {
        let i = choose|i: int| 0 <= i < j && (#[trigger] fields[i]).0 == name;
        first_exists(fields, name, i);
    } else {
        assert(named_first(fields, name, j));
    }
}

/// Where a span or an event comes from.
#[derive(Debug, Clone)]
pub struct Metadata {
    pub name: String,
    pub target: String,
    pub level: WireLevel,
}

pub ghost struct MetaModel {
    pub name: Text,
    pub target: Text,
    pub level: WireLevel,
}

impl View for Metadata {
    type V = MetaModel;

    open spec fn view(&self) -> MetaModel {
        MetaModel { name: self.name@, target: self.target@, level: self.level }
    }
}

impl Metadata {
    /// The same metadata.
    pub fn duplicate(&self) -> (r: Self)
        ensures
            r@ == self@,
    {
        Metadata { name: self.name.clone(), target: self.target.clone(), level: self.level }
    }
}

/// A captured event. A record fresh from a pool has neither metadata nor
/// time.
pub struct EventRecord {
    pub metadata: Option<Metadata>,
    pub fields: FieldList,
    /// When the event happened, in nanoseconds of a clock that only goes
    /// forward.
    pub recorded_at: Option<u64>,
    /// The shard of the pool to which the record goes back; none where it
    /// came from no pool.
    pub home: Option<usize>,
}

pub ghost struct EventRecordModel {
    pub metadata: Option<MetaModel>,
    pub fields: Seq<(Text, ValueModel)>,
    pub recorded_at: Option<u64>,
    pub home: Option<usize>,
}

impl View for EventRecord {
    type V = EventRecordModel;

    open spec fn view(&self) -> EventRecordModel {
        EventRecordModel {
            metadata: match self.metadata {
                Some(m) => Some(m@),
                None => None,
            },
            fields: values_model(self.fields@),
            recorded_at: self.recorded_at,
            home: self.home,
        }
    }
}

/// An event record with nothing in it.
pub open spec fn blank_event() -> EventRecordModel {
    EventRecordModel { metadata: None, fields: Seq::empty(), recorded_at: None, home: None }
}

impl Default for EventRecord {
    fn default() -> (r: Self)
        ensures
            r@ == blank_event(),
    {
        let r = EventRecord { metadata: None, fields: Vec::new(), recorded_at: None, home: None };
        assert(r@.fields =~= Seq::empty());
        r
    }
}

impl EventRecord {
    pub fn metadata(&self) -> (r: &Metadata)
        requires
            self.metadata is Some,
        ensures
            self@.metadata == Some(r@),
    {
        self.metadata.as_ref().unwrap()
    }

    pub fn recorded_at(&self) -> (r: u64)
        requires
            self.recorded_at is Some,
        ensures
            self@.recorded_at == Some(r),
    {
        self.recorded_at.unwrap()
    }

    /// The value of the first field with the given name.
    pub fn field(&self, name: &str) -> (r: Option<&FieldValue>)
        ensures
            match r {
                Some(v) => value_of(self@.fields, name@) == Some(v@),
                None => value_of(self@.fields, name@) is None,
            },
    {
        field_get(&self.fields, name)
    }

    /// The same record.
    pub fn duplicate(&self) -> (r: Self)
        ensures
            r@ == self@,
    {
        EventRecord {
            metadata: match &self.metadata {
                Some(m) => Some(m.duplicate()),
                None => None,
            },
            fields: duplicate_fields(&self.fields),
            recorded_at: self.recorded_at,
            home: self.home,
        }
    }
}

/// The same fields.
pub fn duplicate_fields(fields: &FieldList) -> (r: FieldList)
    ensures
        values_model(r@) == values_model(fields@),
{
    let mut out: FieldList = Vec::new();
    let mut i: usize = 0;
    while i < fields.len()
        invariant
            i <= fields@.len(),
            out@.len() == i,
            forall|j: int|
                0 <= j < i ==> (#[trigger] out@[j]).0@ == fields@[j].0@ && out@[j].1@
                    == fields@[j].1@,
        decreases fields@.len() - i,
    {
        out.push((fields[i].0.clone(), fields[i].1.duplicate()));
        i = i + 1;
    }
    assert(values_model(out@) =~= values_model(fields@));
    out
}

/// A recorded span.
pub struct SpanRecord {
    pub id: u64,
    pub parent_id: Option<u64>,
    pub metadata: Metadata,
    pub fields: FieldList,
    /// The events that happened in the span.
    pub events: Vec<EventRecord>,
    /// When the span was opened, in nanoseconds of a clock that only goes
    /// forward.
    pub opened_at: u64,
    pub closed_at: Option<u64>,
}

pub ghost struct SpanRecordModel {
    pub id: u64,
    pub parent_id: Option<u64>,
    pub metadata: MetaModel,
    pub fields: Seq<(Text, ValueModel)>,
    pub events: Seq<EventRecordModel>,
    pub opened_at: u64,
    pub closed_at: Option<u64>,
}

pub open spec fn events_model(events: Seq<EventRecord>) -> Seq<EventRecordModel> {
    events.map_values(|e: EventRecord| e@)
}

impl View for SpanRecord {
    type V = SpanRecordModel;

    open spec fn view(&self) -> SpanRecordModel {
        SpanRecordModel {
            id: self.id,
            parent_id: self.parent_id,
            metadata: self.metadata@,
            fields: values_model(self.fields@),
            events: events_model(self.events@),
            opened_at: self.opened_at,
            closed_at: self.closed_at,
        }
    }
}

impl SpanRecord {
    /// The value of the first field with the given name.
    pub fn field(&self, name: &str) -> (r: Option<&FieldValue>)
        ensures
            match r {
                Some(v) => value_of(self@.fields, name@) == Some(v@),
                None => value_of(self@.fields, name@) is None,
            },
    {
        field_get(&self.fields, name)
    }

    /// The same record.
    pub fn duplicate(&self) -> (r: Self)
        ensures
            r@ == self@,
    {
        let mut events: Vec<EventRecord> = Vec::new();
        let mut i: usize = 0;
        while i < self.events.len()
            invariant
                i <= self.events@.len(),
                events@.len() == i,
                forall|j: int| 0 <= j < i ==> (#[trigger] events@[j])@ == self.events@[j]@,
            decreases self.events@.len() - i,
        {
            events.push(self.events[i].duplicate());
            i = i + 1;
        }
        assert(events_model(events@) =~= events_model(self.events@));
        SpanRecord {
            id: self.id,
            parent_id: self.parent_id,
            metadata: self.metadata.duplicate(),
            fields: duplicate_fields(&self.fields),
            events,
            opened_at: self.opened_at,
            closed_at: self.closed_at,
        }
    }
}

} // verus!
