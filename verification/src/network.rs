//! What the console does with what the host sends, and what it sends to the
//! host.

use vstd::prelude::*;

use crate::args::LevelArg;
use crate::model::update::{Effect, Update};
use crate::order::Key;
use crate::pattern::Double;
use crate::protocol::{
    control_number, ControlCode, Request, RequestBody, Response, ResponseBody, Text,
    WireLevelFilter,
};
use crate::text::{has_part, occurs_at};

verus! {

/// How many answers are handed on at once.
pub const MAX_BATCH: usize = 256;

/// How long to wait before connecting again, in nanoseconds.
pub const RECONNECT_DELAY_NS: u64 = 1_000_000_000;

/// What is to be asked of the host.
#[derive(Debug, Clone)]
pub enum Outgoing {
    SetCacheLevel(WireLevelFilter),
    SetCacheChance(Double),
}

/// The numbers of the requests. They go on from one connection to the next,
/// so that two requests have the same number only when all are used up.
#[derive(Debug)]
pub struct RequestIds {
    pub next: u64,
}

impl RequestIds {
    pub fn new() -> (r: Self)
        ensures
            r.next == 1,
    {
        RequestIds { next: 1 }
    }

    /// The next number.
    pub fn issue(&mut self) -> (id: u64)
        ensures
            id == old(self).next,
            final(self).next == number_after(old(self).next),
    {
        let id: u64 = self.next;
        self.next = if id == u64::MAX { 0 } else { id + 1 };
        id
    }
}

/// The number that follows another; zero follows the greatest.
pub open spec fn number_after(id: u64) -> u64 {
    if id == u64::MAX {
        0
    } else {
        (id + 1) as u64
    }
}

/// The request with the given number.
pub open spec fn numbered(id: u64, body: RequestBody) -> Request {
    Request { id, control: control_number(ControlCode::Normal), body }
}

/// The request that begins a stream.
pub fn start_request(ids: &mut RequestIds) -> (r: Request)
    ensures
        r == numbered(old(ids).next, RequestBody::StartStream),
        final(ids).next == number_after(old(ids).next),
{
    let mut r = Request::new(RequestBody::StartStream);
    r.set_message_id(ids.issue());
    r
}

pub open spec fn body_for(asked: Outgoing) -> RequestBody {
    match asked {
        Outgoing::SetCacheLevel(filter) => RequestBody::SetCacheLevel(filter),
        Outgoing::SetCacheChance(pct) => RequestBody::SetCacheChance(pct),
    }
}

/// The request that asks something of the host.
pub fn request_for(asked: Outgoing, ids: &mut RequestIds) -> (r: Request)
    ensures
        r == numbered(old(ids).next, body_for(asked)),
        final(ids).next == number_after(old(ids).next),
{
    let mut r = Request::new(
        match asked {
            Outgoing::SetCacheLevel(filter) => RequestBody::SetCacheLevel(filter),
            Outgoing::SetCacheChance(pct) => RequestBody::SetCacheChance(pct),
        },
    );
    r.set_message_id(ids.issue());
    r
}

/// What is asked of the host for an effect, if anything is.
pub open spec fn asked_by(effect: Effect) -> Option<Outgoing> {
    match effect {
        Effect::RequestSetLevel(level) => Some(Outgoing::SetCacheLevel(level)),
        Effect::RequestSetChance(pct) => Some(Outgoing::SetCacheChance(pct)),
        _ => None,
    }
}

/// What is asked of the host for an effect, if anything is.
pub fn outgoing_for(effect: &Effect) -> (r: Option<Outgoing>)
    ensures
        r == asked_by(*effect),
{
    match effect {
        Effect::RequestSetLevel(level) => Some(Outgoing::SetCacheLevel(*level)),
        Effect::RequestSetChance(pct) => Some(Outgoing::SetCacheChance(*pct)),
        _ => None,
    }
}

/// What is asked of the host before anything else.
pub fn startup_requests(set_level: Option<LevelArg>, set_chance: Option<Double>) -> (r: Vec<
    Outgoing,
>)
    ensures
        r@ == (match set_level {
            Some(level) => seq![Outgoing::SetCacheLevel(level.spec_to_wire())],
            None => Seq::empty(),
        }) + (match set_chance {
            Some(pct) => seq![Outgoing::SetCacheChance(pct)],
            None => Seq::empty(),
        }),
{
    let mut out: Vec<Outgoing> = Vec::new();
    if let Some(level) = set_level {
        out.push(Outgoing::SetCacheLevel(level.to_wire()));
    }
    if let Some(pct) = set_chance {
        out.push(Outgoing::SetCacheChance(pct));
    }
    out
}

/// The message to the console that an answer stands for, if it stands for
/// any.
pub open spec fn update_of(resp: Response) -> Option<Update> {
    match resp.body {
        ResponseBody::Span(s) => Some(Update::SpanReceived(s)),
        ResponseBody::CacheLevel(filter) => Some(Update::CacheLevelReceived(filter)),
        ResponseBody::CacheChance(pct) => Some(Update::CacheChanceReceived(pct)),
        ResponseBody::ServerInfo(info) => Some(Update::ServerInfoReceived(info)),
        _ => None,
    }
}

/// The message to the console that an answer stands for, if it stands for
/// any.
pub fn resp_to_update(resp: Response) -> (r: Option<Update>)
    ensures
        r == update_of(resp),
{
    match resp.body {
        ResponseBody::Span(s) => Some(Update::SpanReceived(s)),
        ResponseBody::CacheLevel(filter) => Some(Update::CacheLevelReceived(filter)),
        ResponseBody::CacheChance(pct) => Some(Update::CacheChanceReceived(pct)),
        ResponseBody::ServerInfo(info) => Some(Update::ServerInfoReceived(info)),
        _ => None,
    }
}

/// What came from a stream.
#[derive(Debug)]
pub enum StreamItem {
    Answer(Response),
    /// The stream failed; why is told.
    Failed(String),
    /// The stream is over.
    Ended,
}

/// What came from a stream without a pause.
#[derive(Debug)]
pub struct Burst {
    pub updates: Vec<Update>,
    /// Why the stream failed, if it did.
    pub failure: Option<String>,
    pub ended: bool,
}

pub ghost struct BurstModel {
    pub updates: Seq<Update>,
    pub failure: Option<Text>,
    pub ended: bool,
}

impl View for Burst {
    type V = BurstModel;

    open spec fn view(&self) -> BurstModel {
        BurstModel {
            updates: self.updates@,
            failure: match self.failure {
                Some(s) => Some(s@),
                None => None,
            },
            ended: self.ended,
        }
    }
}

/// Nothing yet.
pub open spec fn no_burst() -> BurstModel {
    BurstModel { updates: Seq::empty(), failure: None, ended: false }
}

/// A burst with one more item.
pub open spec fn burst_after(m: BurstModel, item: StreamItem) -> BurstModel {
    match item {
        StreamItem::Answer(resp) => match update_of(resp) {
            Some(u) => BurstModel { updates: m.updates.push(u), ..m },
            None => m,
        },
        StreamItem::Failed(why) => BurstModel { failure: Some("stream error: "@ + why@), ..m },
        StreamItem::Ended => BurstModel { ended: true, ..m },
    }
}

/// More may join the burst.
pub open spec fn takes_more(m: BurstModel) -> bool {
    m.failure is None && !m.ended && m.updates.len() < MAX_BATCH
}

impl Burst {
    pub fn new() -> (b: Self)
        ensures
            b@ == no_burst(),
    {
        let b = Burst { updates: Vec::new(), failure: None, ended: false };
        assert(b@.updates =~= Seq::empty());
        b
    }

    /// Whether more may join the burst.
    pub fn wants_more(&self) -> (r: bool)
        ensures
            r == takes_more(self@),
    {
        self.failure.is_none() && !self.ended && self.updates.len() < MAX_BATCH
    }

    /// Takes what came from the stream.
    pub fn take(&mut self, item: StreamItem)
        ensures
            final(self)@ == burst_after(old(self)@, item),
    {
        match item {
            StreamItem::Answer(resp) => {
                if let Some(u) = resp_to_update(resp) {
                    self.updates.push(u);
                }
            },
            StreamItem::Failed(why) => {
                let mut text: String = "stream error: ".to_owned();
                text.append(why.as_str());
                self.failure = Some(text);
            },
            StreamItem::Ended => {
                self.ended = true;
            },
        }
    }
}

/// How the updates of a burst were received.
#[derive(Debug, Clone, Copy, PartialEq, Eq, Structural)]
pub enum Handed {
    /// There were none, or they were taken.
    Taken,
    /// There was no room; they are lost.
    Full,
    /// Nobody is left to take them.
    Closed,
}

/// Where to go on after a burst.
#[derive(Debug, Clone, Copy, PartialEq, Eq, Structural)]
pub enum Flow {
    /// With the same stream.
    Stay,
    /// With a new connection.
    Reconnect,
    /// Nowhere.
    Stop,
}

/// Where to go on after a burst, and the reasons for which the console is
/// told that it is disconnected.
pub open spec fn flow_after(m: BurstModel, handed: Handed) -> (Flow, Seq<Text>) {
    if handed == Handed::Closed {
        (Flow::Stop, seq!["stream ended"@])
    } else {
        match m.failure {
            Some(why) => (Flow::Reconnect, seq![why, "stream ended"@]),
            None => if m.ended {
                (Flow::Reconnect, seq!["stream ended"@])
            } else {
                (Flow::Stay, Seq::empty())
            },
        }
    }
}

/// Where to go on after a burst whose updates were handed on, and the reasons
/// for which the console is told that it is disconnected.
pub fn finish_burst(failure: Option<String>, ended: bool, handed: Handed) -> (r: (
    Flow,
    Vec<String>,
))
    ensures
        (r.0, r.1.model()) == flow_after(
            (BurstModel {
                updates: Seq::empty(),
                failure: match failure {
                    Some(s) => Some(s@),
                    None => None,
                },
                ended,
            }),
            handed,
        ),
{
    let mut reasons: Vec<String> = Vec::new();
    if matches!(handed, Handed::Closed) {
        reasons.push("stream ended".to_owned());
        assert(reasons.model() =~= seq!["stream ended"@]);
        return (Flow::Stop, reasons);
    }
    match failure {
        Some(why) => {
            let ghost text = why@;
            reasons.push(why);
            reasons.push("stream ended".to_owned());
            assert(reasons.model() =~= seq![text, "stream ended"@]);
            (Flow::Reconnect, reasons)
        },
        None => {
            if ended {
                reasons.push("stream ended".to_owned());
                assert(reasons.model() =~= seq!["stream ended"@]);
                (Flow::Reconnect, reasons)
            } else {
                assert(reasons.model() =~= Seq::empty());
                (Flow::Stay, reasons)
            }
        },
    }
}

/// The notice that a connection is being made.
pub fn connecting_notice(addr: &str) -> (r: String)
    ensures
        r@ == "connecting to "@ + addr@ + "…"@,
{
    let mut s: String = "connecting to ".to_owned();
    s.append(addr);
    s.append("…");
    s
}

/// Why there is no connection.
pub fn connect_failure(why: &str) -> (r: String)
    ensures
        r@ == "connect failed: "@ + why@,
{
    let mut s: String = "connect failed: ".to_owned();
    s.append(why);
    s
}

/// Why there is no stream.
pub fn start_failure(why: &str) -> (r: String)
    ensures
        r@ == "StartStream failed: "@ + why@,
{
    let mut s: String = "StartStream failed: ".to_owned();
    s.append(why);
    s
}

/// What became of a connection.
pub enum LinkEvent {
    /// There is none, for the given reason.
    Refused(String),
    /// There is one.
    Dialled,
    /// No stream began on it, for the given reason.
    NotStarted(String),
    /// A stream began on it.
    Started,
    /// The stream was left.
    Left(Flow),
}

/// What to do next about the connection.
#[derive(Debug, Clone, Copy, PartialEq, Eq, Structural)]
pub enum LinkAction {
    /// Ask for a stream.
    Start,
    /// Take in what the stream brings.
    Follow,
    /// Wait so many nanoseconds, then dial again.
    Redial(u64),
    /// Nothing more.
    Quit,
}

/// What to do about a connection.
pub struct LinkStep {
    /// What the console is told.
    pub told: Option<Update>,
    /// Whether the connection has to be given up first.
    pub hang_up: bool,
    pub next: LinkAction,
}

/// What a console can be told about its connection.
pub ghost enum Told {
    Nothing,
    Connected,
    Disconnected(Text),
    Other,
}

/// What an update tells about the connection.
pub open spec fn told_by(update: Option<Update>) -> Told {
    match update {
        None => Told::Nothing,
        Some(Update::Connected) => Told::Connected,
        Some(Update::Disconnected(why)) => Told::Disconnected(why@),
        Some(_) => Told::Other,
    }
}

/// What to do about a connection: what is told, whether it is given up, and
/// what comes next.
pub open spec fn linked(event: LinkEvent) -> (Told, bool, LinkAction) {
    match event {
        LinkEvent::Refused(why) => (
            Told::Disconnected("connect failed: "@ + why@),
            false,
            LinkAction::Redial(RECONNECT_DELAY_NS),
        ),
        LinkEvent::Dialled => (Told::Connected, false, LinkAction::Start),
        LinkEvent::NotStarted(why) => (
            Told::Disconnected("StartStream failed: "@ + why@),
            true,
            LinkAction::Redial(RECONNECT_DELAY_NS),
        ),
        LinkEvent::Started => (Told::Nothing, false, LinkAction::Follow),
        LinkEvent::Left(flow) => match flow {
            Flow::Stay => (Told::Nothing, false, LinkAction::Follow),
            Flow::Reconnect => (Told::Nothing, true, LinkAction::Redial(RECONNECT_DELAY_NS)),
            Flow::Stop => (Told::Nothing, true, LinkAction::Quit),
        },
    }
}

/// Decides what to do about a connection.
pub fn link_step(event: LinkEvent) -> (r: LinkStep)
    ensures
        (told_by(r.told), r.hang_up, r.next) == linked(event),
{
    match event {
        LinkEvent::Refused(why) => LinkStep {
            told: Some(Update::Disconnected(connect_failure(why.as_str()))),
            hang_up: false,
            next: LinkAction::Redial(RECONNECT_DELAY_NS),
        },
        LinkEvent::Dialled => LinkStep {
            told: Some(Update::Connected),
            hang_up: false,
            next: LinkAction::Start,
        },
        LinkEvent::NotStarted(why) => LinkStep {
            told: Some(Update::Disconnected(start_failure(why.as_str()))),
            hang_up: true,
            next: LinkAction::Redial(RECONNECT_DELAY_NS),
        },
        LinkEvent::Started => LinkStep { told: None, hang_up: false, next: LinkAction::Follow },
        LinkEvent::Left(Flow::Stay) => LinkStep {
            told: None,
            hang_up: false,
            next: LinkAction::Follow,
        },
        LinkEvent::Left(Flow::Reconnect) => LinkStep {
            told: None,
            hang_up: true,
            next: LinkAction::Redial(RECONNECT_DELAY_NS),
        },
        LinkEvent::Left(Flow::Stop) => LinkStep {
            told: None,
            hang_up: true,
            next: LinkAction::Quit,
        },
    }
}

/// What came of some items, as long as more might join.
pub open spec fn burst_of(items: Seq<StreamItem>) -> BurstModel
    decreases items.len(),
{
    if items.len() == 0 {
        no_burst()
    } else {
        let before = burst_of(items.drop_last());
        if takes_more(before) {
            burst_after(before, items.last())
        } else {
            before
        }
    }
}

/// A burst holds no more than its limit, whatever comes.
pub proof fn bursts_stay_bounded(items: Seq<StreamItem>)
    ensures
        burst_of(items).updates.len() <= MAX_BATCH,
    decreases items.len(),
{
    if items.len() > 0 {
        bursts_stay_bounded(items.drop_last());
    }
}

/// A stream that neither fails nor ends is kept, unless nobody listens.
pub proof fn healthy_streams_are_kept(items: Seq<StreamItem>, handed: Handed)
    requires
        forall|i: int| 0 <= i < items.len() ==> #[trigger] items[i] is Answer,
        handed != Handed::Closed,
    ensures
        flow_after(burst_of(items), handed).0 == Flow::Stay,
    decreases items.len(),
{
    if items.len() > 0 {
        healthy_streams_are_kept(items.drop_last(), handed);
    }
}

/// What the host is asked for is what the console asked for: a level or a
/// chance reaches the host unchanged.
pub proof fn requests_say_what_was_asked(level: WireLevelFilter, pct: Double)
    ensures
        body_for(asked_by(Effect::RequestSetLevel(level))->0) == RequestBody::SetCacheLevel(level),
        body_for(asked_by(Effect::RequestSetChance(pct))->0) == RequestBody::SetCacheChance(pct),
{
}

/// An answer reaches the console as it came: a span, a level, a chance or a
/// version as what it is, and nothing else reaches it.
pub proof fn answers_arrive_unchanged(resp: Response)
    ensures
        ({
            let told = update_of(resp);
            &&& resp.body matches ResponseBody::Span(s) ==> told == Some(Update::SpanReceived(s))
            &&& resp.body matches ResponseBody::CacheLevel(f) ==> told == Some(
                Update::CacheLevelReceived(f),
            )
            &&& resp.body matches ResponseBody::CacheChance(p) ==> told == Some(
                Update::CacheChanceReceived(p),
            )
            &&& resp.body matches ResponseBody::ServerInfo(info) ==> told == Some(
                Update::ServerInfoReceived(info),
            )
            &&& resp.body is Ack || resp.body is Error || resp.body is Noop ==> told is None
        }),
{
}

/// As long as they fit into one burst, all answers that tell the console
/// something are handed on, in the order in which they came and each once.
/// Returns which of them those are.
pub proof fn answers_are_handed_on_in_order(items: Seq<StreamItem>) -> (at: Seq<int>)
    requires
        items.len() <= MAX_BATCH,
        forall|i: int| 0 <= i < items.len() ==> #[trigger] items[i] is Answer,
    ensures
        ({
            let burst = burst_of(items);
            &&& at.len() == burst.updates.len()
            &&& at.len() <= items.len()
            &&& forall|k: int, l: int|
                0 <= k < l < at.len() ==> #[trigger] at[k] < #[trigger] at[l]
            &&& forall|k: int|
                0 <= k < at.len() ==> 0 <= #[trigger] at[k] < items.len() && Some(burst.updates[k])
                    == update_of(items[at[k]]->Answer_0)
            &&& forall|i: int|
                0 <= i < items.len() && update_of((#[trigger] items[i])->Answer_0) is Some
                    ==> at.contains(i)
            &&& burst.failure is None
            &&& !burst.ended
        }),
    decreases items.len(),
{
    if items.len() == 0 {
        Seq::empty()
    } else {
        let front = items.drop_last();
        let last = items.len() - 1;
        assert forall|i: int| 0 <= i < front.len() implies #[trigger] front[i] is Answer by {
            assert(items[i] is Answer);
        }
        let before = answers_are_handed_on_in_order(front);
        assert(items[last] is Answer);
        assert(takes_more(burst_of(front)));
        if update_of(items[last]->Answer_0) is Some {
            let at = before.push(last);
            assert forall|i: int|
                0 <= i < items.len() && update_of(
                    (#[trigger] items[i])->Answer_0,
                ) is Some implies at.contains(i) by {
                if i < last {
                    assert(update_of(front[i]->Answer_0) is Some);
                    let k = choose|k: int| 0 <= k < before.len() && before[k] == i;
                    assert(at[k] == i);
                } else {
                    assert(at[before.len() as int] == i);
                }
            }
            at
        } else {
            assert forall|i: int|
                0 <= i < items.len() && update_of(
                    (#[trigger] items[i])->Answer_0,
                ) is Some implies before.contains(i) by {
                assert(update_of(front[i]->Answer_0) is Some);
            }
            before
        }
    }
}

/// Different requests get different numbers, until all are used up.
pub proof fn numbers_are_not_used_twice(a: u64, b: u64)
    ensures
        number_after(a) != a,
        number_after(a) == number_after(b) ==> a == b,
{
}

/// Where something fails, the console is told why and a new connection is
/// tried after a while; a connection that was made is given up first. Only
/// where nobody listens any longer is there an end.
pub proof fn failures_are_told_and_tried_again(event: LinkEvent)
    ensures
        ({
            let (told, hang_up, next) = linked(event);
            &&& event matches LinkEvent::Refused(why) ==> {
                &&& told is Disconnected && has_part(told->Disconnected_0, why@)
                &&& !hang_up
                &&& next is Redial
            }
            &&& event matches LinkEvent::NotStarted(why) ==> {
                &&& told is Disconnected && has_part(told->Disconnected_0, why@)
                &&& hang_up
                &&& next is Redial
            }
            &&& event is Dialled ==> told is Connected && next is Start && !hang_up
            &&& event is Started ==> next is Follow && !hang_up
            &&& next is Quit <==> event == LinkEvent::Left(Flow::Stop)
            &&& event == LinkEvent::Left(Flow::Reconnect) ==> hang_up && next is Redial
            &&& event == LinkEvent::Left(Flow::Stay) ==> !hang_up && next is Follow
            &&& next matches LinkAction::Redial(ns) ==> ns == 1_000_000_000
        }),
{
    if let LinkEvent::Refused(why) = event {
        let front = "connect failed: "@;
        let text = front + why@;
        assert forall|j: int| 0 <= j < why@.len() implies #[trigger] text[front.len() + j]
            == why@[j] by {
        }
        assert(occurs_at(text, why@, front.len() as int));
    }
    if let LinkEvent::NotStarted(why) = event {
        let front = "StartStream failed: "@;
        let text = front + why@;
        assert forall|j: int| 0 <= j < why@.len() implies #[trigger] text[front.len() + j]
            == why@[j] by {
        }
        assert(occurs_at(text, why@, front.len() as int));
    }
}

/// A stream is left for good only where nobody listens; where it fails or
/// ends, it is taken up again, and a failure is told.
pub proof fn streams_are_taken_up_again(m: BurstModel, handed: Handed)
    ensures
        ({
            let (flow, told) = flow_after(m, handed);
            &&& flow is Stop <==> handed == Handed::Closed
            &&& flow is Stay <==> handed != Handed::Closed && m.failure is None && !m.ended
            &&& flow is Stay ==> told.len() == 0
            &&& !(flow is Stay) ==> told.len() > 0
            &&& flow is Reconnect && m.failure is Some ==> told[0] == m.failure->0
        }),
{
}

} // verus!
