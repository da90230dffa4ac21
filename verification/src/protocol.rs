//! The messages that pass between a host and a console, and the spans and
//! events that they carry.
//!
//! Every message wraps a body next to an id and a control code, which the
//! RPC framework uses to pair responses with requests and to cancel or end
//! a stream.

use protosocket_rpc::ProtosocketControlCode;
use tracing::metadata::LevelFilter;
use tracing::Level;
use vstd::prelude::*;

use crate::pattern::Double;
use crate::text::{contains_text, has_part, i64_text, same_text, u64_text};
use crate::text::{decimal, signed_decimal};

verus! {

/// The characters of a string.
pub type Text = Seq<char>;

/// A captured field value.
#[derive(Debug, Clone, PartialEq, Eq)]
pub enum WireFieldValue {
    U64(u64),
    I64(i64),
    /// A floating-point value, held as its shortest decimal rendering.
    F64(String),
    Bool(bool),
    Str(String),
}

impl View for WireFieldValue {
    type V = Text;

    /// A field value counts for what it prints as.
    open spec fn view(&self) -> Text {
        match *self {
            WireFieldValue::U64(v) => decimal(v as nat),
            WireFieldValue::I64(v) => signed_decimal(v as int),
            WireFieldValue::F64(s) => s@,
            WireFieldValue::Bool(v) => if v { "true"@ } else { "false"@ },
            WireFieldValue::Str(s) => s@,
        }
    }
}

/// The kinds of travelling field values.
pub ghost enum WireKind {
    U64,
    I64,
    F64,
    Bool,
    Str,
}

impl WireFieldValue {
    /// The kind of the value.
    pub open spec fn kind(self) -> WireKind {
        match self {
            WireFieldValue::U64(_) => WireKind::U64,
            WireFieldValue::I64(_) => WireKind::I64,
            WireFieldValue::F64(_) => WireKind::F64,
            WireFieldValue::Bool(_) => WireKind::Bool,
            WireFieldValue::Str(_) => WireKind::Str,
        }
    }

    /// The value as it prints.
    pub fn to_string_value(&self) -> (s: String)
        ensures
            s@ == self@,
    {
        match self {
            WireFieldValue::U64(v) => u64_text(*v),
            WireFieldValue::I64(v) => i64_text(*v),
            WireFieldValue::F64(s) => s.clone(),
            WireFieldValue::Bool(v) => if *v { "true".to_owned() } else { "false".to_owned() },
            WireFieldValue::Str(s) => s.clone(),
        }
    }

    /// The same value.
    pub fn duplicate(&self) -> (r: Self)
        ensures
            r@ == self@,
            r.kind() == self.kind(),
    {
        match self {
            WireFieldValue::U64(v) => WireFieldValue::U64(*v),
            WireFieldValue::I64(v) => WireFieldValue::I64(*v),
            WireFieldValue::F64(s) => WireFieldValue::F64(s.clone()),
            WireFieldValue::Bool(v) => WireFieldValue::Bool(*v),
            WireFieldValue::Str(s) => WireFieldValue::Str(s.clone()),
        }
    }

    /// Whether `needle` is a part of what the value prints as.
    pub fn contains(&self, needle: &str) -> (r: bool)
        ensures
            r == has_part(self@, needle@),
    {
        match self {
            WireFieldValue::Str(s) => contains_text(s.as_str(), needle),
            other => {
                let printed = other.to_string_value();
                contains_text(printed.as_str(), needle)
            },
        }
    }
}

/// The same fields.
pub fn duplicate_fields(fields: &Vec<(String, WireFieldValue)>) -> (r: Vec<
    (String, WireFieldValue),
>)
    ensures
        fields_model(r@) == fields_model(fields@),
        kinds_model(r@) == kinds_model(fields@),
{
    let mut out: Vec<(String, WireFieldValue)> = Vec::new();
    let mut i: usize = 0;
    while i < fields.len()
        invariant
            i <= fields@.len(),
            out@.len() == i,
            forall|j: int|
                0 <= j < i ==> (#[trigger] out@[j]).0@ == fields@[j].0@ && out@[j].1@
                    == fields@[j].1@ && out@[j].1.kind() == fields@[j].1.kind(),
        decreases fields@.len() - i,
    {
        out.push((fields[i].0.clone(), fields[i].1.duplicate()));
        i = i + 1;
    }
    assert(fields_model(out@) =~= fields_model(fields@));
    assert(kinds_model(out@) =~= kinds_model(fields@));
    out
}

/// The pairs of field names and printed values.
pub open spec fn fields_model(fields: Seq<(String, WireFieldValue)>) -> Seq<(Text, Text)> {
    fields.map_values(|f: (String, WireFieldValue)| (f.0@, f.1@))
}

/// The kinds of field values.
pub open spec fn kinds_model(fields: Seq<(String, WireFieldValue)>) -> Seq<WireKind> {
    fields.map_values(|f: (String, WireFieldValue)| f.1.kind())
}

/// The position of the first field with the given name, if there is one.
pub open spec fn first_named(fields: Seq<(Text, Text)>, name: Text, i: int) -> bool {
    &&& 0 <= i < fields.len()
    &&& fields[i].0 == name
    &&& forall|j: int| 0 <= j < i ==> (#[trigger] fields[j]).0 != name
}

/// Where the first field with the given name stands.
fn find_field(fields: &Vec<(String, WireFieldValue)>, name: &str) -> (r: Option<usize>)
    ensures
        match r {
            Some(i) => first_named(fields_model(fields@), name@, i as int),
            None => forall|j: int|
                0 <= j < fields@.len() ==> (#[trigger] fields_model(fields@)[j]).0 != name@,
        },
{
    let mut i: usize = 0;
    while i < fields.len()
        invariant
            i <= fields.len(),
            forall|j: int| 0 <= j < i ==> (#[trigger] fields_model(fields@)[j]).0 != name@,
        decreases fields.len() - i,
    {
        assert(fields_model(fields@)[i as int].0 == fields@[i as int].0@);
        if same_text(fields[i].0.as_str(), name) {
            return Some(i);
        }
        i = i + 1;
    }
    None
}

/// Severity of a span or an event.
#[derive(Debug, Clone, Copy, PartialEq, Eq, Structural)]
pub enum WireLevel {
    Trace,
    Debug,
    Info,
    Warn,
    Error,
}

/// An event recorded inside a span.
#[derive(Debug, Clone)]
pub struct WireEvent {
    pub name: String,
    pub level: WireLevel,
    pub fields: Vec<(String, WireFieldValue)>,
    /// Nanoseconds since the Unix epoch.
    pub recorded_at_ns: u64,
}

/// What an event says.
pub ghost struct EventModel {
    pub name: Text,
    pub level: WireLevel,
    pub fields: Seq<(Text, Text)>,
    /// The kinds of the field values.
    pub kinds: Seq<WireKind>,
    pub recorded_at_ns: u64,
}

impl View for WireEvent {
    type V = EventModel;

    open spec fn view(&self) -> EventModel {
        EventModel {
            name: self.name@,
            level: self.level,
            fields: fields_model(self.fields@),
            kinds: kinds_model(self.fields@),
            recorded_at_ns: self.recorded_at_ns,
        }
    }
}

/// A closed span as it travels.
#[derive(Debug, Clone)]
pub struct WireSpan {
    pub id: u64,
    pub parent_id: Option<u64>,
    pub name: String,
    pub target: String,
    pub level: WireLevel,
    pub fields: Vec<(String, WireFieldValue)>,
    pub events: Vec<WireEvent>,
    /// Nanoseconds since the Unix epoch.
    pub opened_at_ns: u64,
    /// `None` while the span is still in flight.
    pub closed_at_ns: Option<u64>,
}

/// What a span says.
pub ghost struct SpanModel {
    pub id: u64,
    pub parent_id: Option<u64>,
    pub name: Text,
    pub target: Text,
    pub level: WireLevel,
    pub fields: Seq<(Text, Text)>,
    /// The kinds of the field values.
    pub kinds: Seq<WireKind>,
    pub events: Seq<EventModel>,
    pub opened_at_ns: u64,
    pub closed_at_ns: Option<u64>,
}

impl View for WireSpan {
    type V = SpanModel;

    open spec fn view(&self) -> SpanModel {
        SpanModel {
            id: self.id,
            parent_id: self.parent_id,
            name: self.name@,
            target: self.target@,
            level: self.level,
            fields: fields_model(self.fields@),
            kinds: kinds_model(self.fields@),
            events: self.events@.map_values(|e: WireEvent| e@),
            opened_at_ns: self.opened_at_ns,
            closed_at_ns: self.closed_at_ns,
        }
    }
}

impl WireSpan {
    /// The same span.
    pub fn duplicate(&self) -> (r: Self)
        ensures
            r@ == self@,
    {
        let mut events: Vec<WireEvent> = Vec::new();
        let mut i: usize = 0;
        while i < self.events.len()
            invariant
                i <= self.events@.len(),
                events@.len() == i,
                forall|j: int| 0 <= j < i ==> (#[trigger] events@[j])@ == self.events@[j]@,
            decreases self.events@.len() - i,
        {
            events.push(self.events[i].duplicate());
            i = i + 1;
        }
        let r = WireSpan {
            id: self.id,
            parent_id: self.parent_id,
            name: self.name.clone(),
            target: self.target.clone(),
            level: self.level,
            fields: duplicate_fields(&self.fields),
            events,
            opened_at_ns: self.opened_at_ns,
            closed_at_ns: self.closed_at_ns,
        };
        assert(r@.events =~= self@.events);
        r
    }

    /// The first field with the given name.
    pub fn field(&self, name: &str) -> (r: Option<&WireFieldValue>)
        ensures
            match r {
                Some(v) => exists|i: int|
                    first_named(self@.fields, name@, i) && #[trigger] self.fields@[i].1 == *v
                        && v@ == self@.fields[i].1,
                None => forall|j: int|
                    0 <= j < self@.fields.len() ==> (#[trigger] self@.fields[j]).0 != name@,
            },
    {
        match find_field(&self.fields, name) {
            Some(i) => Some(&self.fields[i].1),
            None => None,
        }
    }
}

impl WireEvent {
    /// The same event.
    pub fn duplicate(&self) -> (r: Self)
        ensures
            r@ == self@,
    {
        WireEvent {
            name: self.name.clone(),
            level: self.level,
            fields: duplicate_fields(&self.fields),
            recorded_at_ns: self.recorded_at_ns,
        }
    }

    /// The first field with the given name.
    pub fn field(&self, name: &str) -> (r: Option<&WireFieldValue>)
        ensures
            match r {
                Some(v) => exists|i: int|
                    first_named(self@.fields, name@, i) && #[trigger] self.fields@[i].1 == *v
                        && v@ == self@.fields[i].1,
                None => forall|j: int|
                    0 <= j < self@.fields.len() ==> (#[trigger] self@.fields[j]).0 != name@,
            },
    {
        match find_field(&self.fields, name) {
            Some(i) => Some(&self.fields[i].1),
            None => None,
        }
    }
}

/// What the cache records: nothing, or everything at least as severe as a
/// level.
#[derive(Debug, Clone, Copy, PartialEq, Eq, Structural)]
pub enum WireLevelFilter {
    Off,
    Error,
    Warn,
    Info,
    Debug,
    Trace,
}

#[verifier::external_type_specification]
#[verifier::external_body]
pub struct ExLevel(Level);

#[verifier::external_type_specification]
#[verifier::external_body]
pub struct ExLevelFilter(LevelFilter);

/// The `tracing` constant that stands for a level.
pub uninterp spec fn tracing_level(level: WireLevel) -> Level;

/// The `tracing` constant that stands for a filter.
pub uninterp spec fn tracing_filter(filter: WireLevelFilter) -> LevelFilter;

impl WireLevel {
    /// Tells the five constants of `tracing::Level` apart. They are all of
    /// that type's values, and no two of them are equal.
    #[verifier::external_body]
    pub fn from_tracing(level: &Level) -> (r: Self)
        ensures
            *level == tracing_level(r),
            forall|other: WireLevel| *level == #[trigger] tracing_level(other) ==> other == r,
    {
        match *level {
            Level::TRACE => WireLevel::Trace,
            Level::DEBUG => WireLevel::Debug,
            Level::INFO => WireLevel::Info,
            Level::WARN => WireLevel::Warn,
            Level::ERROR => WireLevel::Error,
        }
    }

    /// Hands out the constant of `tracing::Level` with the same name.
    #[verifier::external_body]
    pub fn to_tracing(self) -> (r: Level)
        ensures
            r == tracing_level(self),
    {
        match self {
            WireLevel::Trace => Level::TRACE,
            WireLevel::Debug => Level::DEBUG,
            WireLevel::Info => Level::INFO,
            WireLevel::Warn => Level::WARN,
            WireLevel::Error => Level::ERROR,
        }
    }
}

impl WireLevelFilter {
    /// Tells the six constants of `tracing`'s `LevelFilter` apart. They are
    /// all of that type's values, and no two of them are equal.
    #[verifier::external_body]
    pub fn from_tracing(filter: LevelFilter) -> (r: Self)
        ensures
            filter == tracing_filter(r),
            forall|other: WireLevelFilter|
                filter == #[trigger] tracing_filter(other) ==> other == r,
    {
        match filter {
            LevelFilter::OFF => WireLevelFilter::Off,
            LevelFilter::ERROR => WireLevelFilter::Error,
            LevelFilter::WARN => WireLevelFilter::Warn,
            LevelFilter::INFO => WireLevelFilter::Info,
            LevelFilter::DEBUG => WireLevelFilter::Debug,
            LevelFilter::TRACE => WireLevelFilter::Trace,
        }
    }

    /// Hands out the constant of `tracing`'s `LevelFilter` with the same name.
    #[verifier::external_body]
    pub fn to_tracing(self) -> (r: LevelFilter)
        ensures
            r == tracing_filter(self),
    {
        match self {
            WireLevelFilter::Off => LevelFilter::OFF,
            WireLevelFilter::Error => LevelFilter::ERROR,
            WireLevelFilter::Warn => LevelFilter::WARN,
            WireLevelFilter::Info => LevelFilter::INFO,
            WireLevelFilter::Debug => LevelFilter::DEBUG,
            WireLevelFilter::Trace => LevelFilter::TRACE,
        }
    }
}

/// A sampling rate as it was asked for: any double, and what it prints as.
#[derive(Debug, Clone)]
pub struct AskedRate {
    pub rate: Double,
    pub shown: String,
}

/// Every command that a console can send.
#[derive(Debug, Clone)]
pub enum RequestBody {
    /// Filler for control-only frames.
    Noop,
    /// Begin streaming closed spans.
    StartStream,
    /// Stop the current stream.
    StopStream,
    /// Stream only spans at least as severe as this, on this connection.
    SetLevel(WireLevel),
    /// Record only what this filter lets through, for every connection.
    SetCacheLevel(WireLevelFilter),
    /// The percentage of root spans that the cache records.
    SetCacheChance(Double),
    /// The fraction of span families to stream; one is all of them.
    SetSamplingRate(AskedRate),
    /// Stream only the families whose root holds this text.
    SetFilter(Option<String>),
}

#[derive(Debug, Clone)]
pub struct Request {
    pub id: u64,
    pub control: u8,
    pub body: RequestBody,
}

/// What the host says of itself.
#[derive(Debug, Clone, PartialEq, Eq)]
pub struct WireServerInfo {
    /// The version of the host.
    pub version: String,
}

/// What a host can send.
#[derive(Debug, Clone)]
pub enum ResponseBody {
    /// Filler for control-only frames.
    Noop,
    /// What the host says of itself.
    ServerInfo(WireServerInfo),
    /// One closed span.
    Span(WireSpan),
    /// The current recording level.
    CacheLevel(WireLevelFilter),
    /// The current recording percentage.
    CacheChance(Double),
    /// A command was carried out.
    Ack,
    /// A command was refused.
    Error(String),
}

#[derive(Debug, Clone)]
pub struct Response {
    pub id: u64,
    pub control: u8,
    pub body: ResponseBody,
}

/// What a message asks of the RPC framework.
#[derive(Debug, Clone, Copy, PartialEq, Eq, Structural)]
pub enum ControlCode {
    Normal,
    Cancel,
    End,
}

/// The number that stands for a control code in a message.
pub open spec fn control_number(code: ControlCode) -> u8 {
    match code {
        ControlCode::Normal => 0,
        ControlCode::Cancel => 1,
        ControlCode::End => 2,
    }
}

/// The control code that a number stands for; an unknown number cancels.
pub open spec fn control_meaning(number: u8) -> ControlCode {
    if number == 0 {
        ControlCode::Normal
    } else if number == 2 {
        ControlCode::End
    } else {
        ControlCode::Cancel
    }
}

/// `ProtosocketControlCode::as_u8` writes `Normal` as 0, `Cancel` as 1 and
/// `End` as 2.
#[verifier::external_body]
fn control_byte(code: ControlCode) -> (r: u8)
    ensures
        r == control_number(code),
{
    match code {
        ControlCode::Normal => ProtosocketControlCode::Normal.as_u8(),
        ControlCode::Cancel => ProtosocketControlCode::Cancel.as_u8(),
        ControlCode::End => ProtosocketControlCode::End.as_u8(),
    }
}

/// `ProtosocketControlCode::from_u8` reads 0 as `Normal`, 2 as `End`, and 1
/// and every other number as `Cancel`.
#[verifier::external_body]
fn control_of(number: u8) -> (r: ControlCode)
    ensures
        r == control_meaning(number),
{
    match ProtosocketControlCode::from_u8(number) {
        ProtosocketControlCode::Normal => ControlCode::Normal,
        ProtosocketControlCode::Cancel => ControlCode::Cancel,
        ProtosocketControlCode::End => ControlCode::End,
    }
}

impl Request {
    pub fn new(body: RequestBody) -> (r: Self)
        ensures
            r == (Request { id: 0, control: control_number(ControlCode::Normal), body }),
    {
        Request { id: 0, control: control_byte(ControlCode::Normal), body }
    }

    pub fn message_id(&self) -> (r: u64)
        ensures
            r == self.id,
    {
        self.id
    }

    pub fn control_code(&self) -> (r: ControlCode)
        ensures
            r == control_meaning(self.control),
    {
        control_of(self.control)
    }

    pub fn set_message_id(&mut self, id: u64)
        ensures
            *final(self) == (Request { id, ..*old(self) }),
    {
        self.id = id;
    }

    pub fn cancelled(id: u64) -> (r: Self)
        ensures
            r == (Request {
                id,
                control: control_number(ControlCode::Cancel),
                body: RequestBody::Noop,
            }),
    {
        Request { id, control: control_byte(ControlCode::Cancel), body: RequestBody::Noop }
    }

    pub fn ended(id: u64) -> (r: Self)
        ensures
            r == (Request {
                id,
                control: control_number(ControlCode::End),
                body: RequestBody::Noop,
            }),
    {
        Request { id, control: control_byte(ControlCode::End), body: RequestBody::Noop }
    }
}

/// What a response says.
pub ghost enum BodyModel {
    Noop,
    ServerInfo(Text),
    Span(SpanModel),
    CacheLevel(WireLevelFilter),
    CacheChance(Double),
    Ack,
    Error(Text),
}

pub ghost struct ResponseModel {
    pub id: u64,
    pub control: u8,
    pub body: BodyModel,
}

impl View for ResponseBody {
    type V = BodyModel;

    open spec fn view(&self) -> BodyModel {
        match self {
            ResponseBody::Noop => BodyModel::Noop,
            ResponseBody::ServerInfo(info) => BodyModel::ServerInfo(info.version@),
            ResponseBody::Span(span) => BodyModel::Span(span@),
            ResponseBody::CacheLevel(level) => BodyModel::CacheLevel(*level),
            ResponseBody::CacheChance(pct) => BodyModel::CacheChance(*pct),
            ResponseBody::Ack => BodyModel::Ack,
            ResponseBody::Error(msg) => BodyModel::Error(msg@),
        }
    }
}

impl View for Response {
    type V = ResponseModel;

    open spec fn view(&self) -> ResponseModel {
        ResponseModel { id: self.id, control: self.control, body: self.body@ }
    }
}

/// A response to the request with the given id.
pub open spec fn response_to(id: u64, body: BodyModel) -> ResponseModel {
    ResponseModel { id, control: control_number(ControlCode::Normal), body }
}

/// A response with the given body, not yet addressed to a request.
pub open spec fn plain_response(body: ResponseBody) -> Response {
    Response { id: 0, control: control_number(ControlCode::Normal), body }
}

impl Response {
    pub fn new(body: ResponseBody) -> (r: Self)
        ensures
            r == plain_response(body),
    {
        Response { id: 0, control: control_byte(ControlCode::Normal), body }
    }

    pub fn ack() -> (r: Self)
        ensures
            r == plain_response(ResponseBody::Ack),
    {
        Response::new(ResponseBody::Ack)
    }

    pub fn error(msg: String) -> (r: Self)
        ensures
            r == plain_response(ResponseBody::Error(msg)),
    {
        Response::new(ResponseBody::Error(msg))
    }

    pub fn span(s: WireSpan) -> (r: Self)
        ensures
            r == plain_response(ResponseBody::Span(s)),
    {
        Response::new(ResponseBody::Span(s))
    }

    pub fn cache_level(level: WireLevelFilter) -> (r: Self)
        ensures
            r == plain_response(ResponseBody::CacheLevel(level)),
    {
        Response::new(ResponseBody::CacheLevel(level))
    }

    pub fn cache_chance(pct: Double) -> (r: Self)
        ensures
            r == plain_response(ResponseBody::CacheChance(pct)),
    {
        Response::new(ResponseBody::CacheChance(pct))
    }

    pub fn server_info(version: String) -> (r: Self)
        ensures
            r == plain_response(ResponseBody::ServerInfo(WireServerInfo { version })),
    {
        Response::new(ResponseBody::ServerInfo(WireServerInfo { version }))
    }

    /// The same response, addressed to the request with the given id.
    pub fn with_id(self, id: u64) -> (r: Self)
        ensures
            r == (Response { id, ..self }),
    {
        Response { id, control: self.control, body: self.body }
    }

    pub fn message_id(&self) -> (r: u64)
        ensures
            r == self.id,
    {
        self.id
    }

    pub fn control_code(&self) -> (r: ControlCode)
        ensures
            r == control_meaning(self.control),
    {
        control_of(self.control)
    }

    pub fn set_message_id(&mut self, id: u64)
        ensures
            *final(self) == (Response { id, ..*old(self) }),
    {
        self.id = id;
    }

    pub fn cancelled(id: u64) -> (r: Self)
        ensures
            r == (Response {
                id,
                control: control_number(ControlCode::Cancel),
                body: ResponseBody::Noop,
            }),
    {
        Response { id, control: control_byte(ControlCode::Cancel), body: ResponseBody::Noop }
    }

    pub fn ended(id: u64) -> (r: Self)
        ensures
            r == (Response {
                id,
                control: control_number(ControlCode::End),
                body: ResponseBody::Noop,
            }),
    {
        Response { id, control: control_byte(ControlCode::End), body: ResponseBody::Noop }
    }
}

/// Reading a control code back gives the code that was written.
pub proof fn control_codes_round_trip(code: ControlCode)
    ensures
        control_meaning(control_number(code)) == code,
{
}

} // verus!
