//! What the host decides for each console: which spans it streams, how often
//! it looks for new ones, and how it answers requests.

use vstd::prelude::*;

use crate::cache::driver::{first_is_smallest, is_smallest, smallest_exists};
use crate::cache::predicate::{clamp_pct, clamped_chance, level_rank};
use crate::cache::record::{SpanRecord, SpanRecordModel};
use crate::double::{whole_double, whole_double_of};
use crate::pattern::{is_share_below, share_below, Double, HUNDRED, INFINITE, ONE, SIGN};
use crate::protocol::{
    response_to, BodyModel, Request, RequestBody, Response, ResponseModel, Text, WireLevel,
    WireLevelFilter,
};
use crate::sorted::SortedMap;
use crate::text::{contains_text, has_part};
use crate::wire::{is_filled, span_to_wire, wire_span, TimeBase};
use crate::model::graph::slot_model;

verus! {

/// How long a stream waits at first before it looks for spans, in
/// nanoseconds.
pub const STREAM_POLL_INTERVAL_INITIAL: u64 = 50_000_000;

/// The most spans that a stream takes at a time.
pub const STREAM_BATCH: usize = 4096;

/// How many spans a stream would like to find at a time.
pub const STREAM_TARGET_BATCH: u64 = 32;

/// The shortest wait of a stream: none.
pub const STREAM_MIN_INTERVAL: u64 = 0;

/// The longest wait of a stream, in nanoseconds.
pub const STREAM_MAX_INTERVAL: u64 = 250_000_000;

/// The shortest wait that is worth while, in nanoseconds.
pub const SHORTEST_SLEEP: u64 = 1_000;

/// The whole number nearest to `n / d`.
pub open spec fn rounded(n: int, d: int) -> int {
    (2 * n + d) / (2 * d)
}

pub open spec fn between(x: int, low: int, high: int) -> int {
    if x < low {
        low
    } else if x > high {
        high
    } else {
        x
    }
}

/// The next wait of a stream that found `count` spans. It is scaled towards
/// the target, by no more than a fifth either way. No wait at all stays so
/// while there are enough spans, and becomes the shortest one otherwise.
pub open spec fn next_interval(current: u64, count: u64) -> int {
    let seen = if count > 0 {
        count as int
    } else {
        1
    };
    if current == 0 {
        if count >= STREAM_TARGET_BATCH {
            0
        } else {
            SHORTEST_SLEEP as int
        }
    } else {
        let raw = rounded(current * STREAM_TARGET_BATCH, seen);
        let band = between(raw, rounded(current * 4, 5), rounded(current * 6, 5));
        let bounded = between(band, STREAM_MIN_INTERVAL as int, STREAM_MAX_INTERVAL as int);
        if bounded < SHORTEST_SLEEP {
            0
        } else {
            bounded
        }
    }
}

/// The whole number nearest to `n / d`.
fn round_quotient(n: u128, d: u128) -> (r: u128)
    requires
        0 < d <= 0x1_0000_0000_0000_0000,
        n <= 0x1_0000_0000_0000_0000_0000_0000,
    ensures
        r == rounded(n as int, d as int),
{
    (2 * n + d) / (2 * d)
}

/// The next wait of a stream that found `count` spans, in nanoseconds.
pub fn adjust_interval(current: u64, count: usize) -> (r: u64)
    ensures
        r == next_interval(current, count as u64),
        r <= STREAM_MAX_INTERVAL,
{
    if current == 0 {
        return if count as u64 >= STREAM_TARGET_BATCH {
            0
        } else {
            SHORTEST_SLEEP
        };
    }
    let seen: u128 = if count > 0 {
        count as u128
    } else {
        1
    };
    let wide: u128 = current as u128;
    assert(0 <= wide * STREAM_TARGET_BATCH <= 0x1_0000_0000_0000_0000_0000_0000) by (nonlinear_arith)
        requires
            0 <= wide <= u64::MAX,
            STREAM_TARGET_BATCH == 32,
    ;
    let raw: u128 = round_quotient(wide * STREAM_TARGET_BATCH as u128, seen);
    let low: u128 = round_quotient(wide * 4, 5);
    let high: u128 = round_quotient(wide * 6, 5);
    let band: u128 = if raw < low {
        low
    } else if raw > high {
        high
    } else {
        raw
    };
    let bounded: u128 = if band > STREAM_MAX_INTERVAL as u128 {
        STREAM_MAX_INTERVAL as u128
    } else {
        band
    };
    if bounded < SHORTEST_SLEEP as u128 {
        0
    } else {
        bounded as u64
    }
}

/// Divisions by five and by the target, written out.
proof fn rounded_parts(n: int)
    ensures
        rounded(n, 5) == (2 * n + 5) / 10,
        rounded(n * STREAM_TARGET_BATCH, STREAM_TARGET_BATCH as int) == (64 * n + 32) / 64,
{
    assert(rounded(n, 5) == (2 * n + 5) / 10) by (nonlinear_arith);
    assert(rounded(n * STREAM_TARGET_BATCH, STREAM_TARGET_BATCH as int) == (64 * n + 32) / 64)
        by (nonlinear_arith)
        requires
            STREAM_TARGET_BATCH == 32,
    ;
}

/// A wait stays as it is where the target is met, is never cut by more than a
/// fifth nor stretched by more, and keeps to its limits.
pub proof fn interval_moves_gently(current: u64, count: u64)
    requires
        SHORTEST_SLEEP <= current <= STREAM_MAX_INTERVAL,
    ensures
        next_interval(current, STREAM_TARGET_BATCH) == current,
        next_interval(current, count) == 0 || next_interval(current, count) >= SHORTEST_SLEEP,
        next_interval(current, count) <= STREAM_MAX_INTERVAL,
        5 * next_interval(current, count) <= 6 * current + 3,
        next_interval(current, count) == 0 || 5 * next_interval(current, count) + 3 >= 4 * current,
{
    let n = current as int;
    rounded_parts(n);
    rounded_parts(n * 4);
    rounded_parts(n * 6);
}

/// Under lasting overload the wait shrinks until there is none.
pub proof fn overload_ends_the_wait(current: u64, count: u64)
    requires
        current <= STREAM_MAX_INTERVAL,
        count >= 40,
    ensures
        current > 0 ==> next_interval(current, count) < current,
        current == 0 ==> next_interval(current, count) == 0,
{
    let n = current as int;
    let k = count as int;
    if current > 0 {
        rounded_parts(n * 4);
        assert(n * STREAM_TARGET_BATCH == n * 32) by (nonlinear_arith)
            requires
                STREAM_TARGET_BATCH == 32,
        ;
        let a = rounded(n * 32, k);
        let low = rounded(n * 4, 5);
        vstd::arithmetic::div_mod::lemma_fundamental_div_mod(2 * (n * 32) + k, 2 * k);
        assert(2 * (n * 32) + k >= (2 * k) * a) by (nonlinear_arith)
            requires
                2 * (n * 32) + k == (2 * k) * a + (2 * (n * 32) + k) % (2 * k),
                k > 0,
        ;
        assert(a <= low) by {
            if a > low {
                assert((2 * a - 1) * k >= (2 * a - 1) * 40) by (nonlinear_arith)
                    requires
                        k >= 40,
                        a >= 1,
                ;
                assert((2 * k) * a - k == (2 * a - 1) * k) by (nonlinear_arith);
            }
        }
    }
}

/// Whether a level is at least as severe as another.
pub fn level_at_least(level: WireLevel, floor: WireLevel) -> (r: bool)
    ensures
        r == (level_rank(level) <= level_rank(floor)),
{
    rank_of(level) <= rank_of(floor)
}

fn rank_of(level: WireLevel) -> (r: u8)
    ensures
        r == level_rank(level),
{
    match level {
        WireLevel::Error => 1,
        WireLevel::Warn => 2,
        WireLevel::Info => 3,
        WireLevel::Debug => 4,
        WireLevel::Trace => 5,
    }
}

/// An id scrambled, so that neighbouring ids fall anywhere.
pub open spec fn scrambled(id: u64) -> u64 {
    let a = vstd::wrapping::u64_specs::wrapping_mul(id, 0x9E37_79B9_7F4A_7C15);
    let b = a ^ (a >> 33);
    let c = vstd::wrapping::u64_specs::wrapping_mul(b, 0xC2B2_AE3D_27D4_EB4F);
    c ^ (c >> 29)
}

/// A family of spans is sampled at a rate: the scrambled id of its root, as a
/// fraction of all 64-bit numbers in double precision, is below the rate.
pub open spec fn is_sampled(family: u64, rate: Double) -> bool {
    rate.reaches(ONE) || (rate.is_positive() && share_below(
        whole_double(scrambled(family) as nat, 1),
        rate.bits,
    ))
}

/// The rate takes some families and leaves others out.
pub open spec fn is_partial(rate: Double) -> bool {
    0 < rate.bits < ONE
}

/// The family of a span, where the families of earlier spans are known: that
/// of its parent. A root is its own family, and so is a parent of which
/// nothing is known.
pub open spec fn family_of(id: u64, parent: Option<u64>, families: Map<u64, u64>) -> u64 {
    match parent {
        None => id,
        Some(p) => if families.dom().contains(p) {
            families[p]
        } else {
            p
        },
    }
}

/// For how many spans a connection remembers what was decided.
pub const MEMO_BUDGET: usize = 65_536;

/// What is remembered after one more decision. Where there are too many, the
/// oldest one, that of the smallest id, goes.
pub open spec fn remembered<V>(memo: Map<u64, V>, id: u64, decision: V) -> Map<u64, V> {
    let all = memo.insert(id, decision);
    if all.dom().len() > MEMO_BUDGET {
        all.remove(choose|id: u64| is_smallest(all.dom(), id))
    } else {
        all
    }
}

/// Remembers a decision.
fn remember<V>(memo: &mut SortedMap<u64, V>, id: u64, decision: V)
    requires
        old(memo).wf(),
    ensures
        final(memo).wf(),
        final(memo)@ == remembered(old(memo)@, id, decision),
{
    memo.insert(id, decision);
    proof {
        first_is_smallest(memo);
    }
    if memo.len() > MEMO_BUDGET {
        let oldest: u64 = *memo.key_at(0);
        let _ = memo.remove(&oldest);
    }
}

/// No more is remembered than there is room for. Where there is room, nothing
/// is forgotten.
pub proof fn memory_is_bounded<V>(memo: Map<u64, V>, id: u64, decision: V)
    requires
        memo.dom().finite(),
        memo.dom().len() <= MEMO_BUDGET,
    ensures
        remembered(memo, id, decision).dom().finite(),
        remembered(memo, id, decision).dom().len() <= MEMO_BUDGET,
        remembered(memo, id, decision).dom().len() <= memo.dom().len() + 1,
        memo.dom().len() < MEMO_BUDGET ==> remembered(memo, id, decision) == memo.insert(
            id,
            decision,
        ),
{
    let all = memo.insert(id, decision);
    assert(all.dom() =~= memo.dom().insert(id));
    if all.dom().len() > MEMO_BUDGET {
        smallest_exists(all.dom());
        let oldest = choose|id: u64| is_smallest(all.dom(), id);
        assert(is_smallest(all.dom(), oldest));
        assert(all.remove(oldest).dom() =~= all.dom().remove(oldest));
    }
}

/// The families that are known after a span was looked at. Where the rate
/// takes all families or none, nothing needs to be remembered.
pub open spec fn families_with(
    families: Map<u64, u64>,
    span: SpanRecordModel,
    rate: Double,
) -> Map<u64, u64> {
    if is_partial(rate) {
        remembered(families, span.id, family_of(span.id, span.parent_id, families))
    } else {
        families
    }
}

/// Whether a span is sampled at a rate. Its family is remembered for its
/// children.
pub fn sampling_passes(record: &SpanRecord, rate: Double, families: &mut SortedMap<u64, u64>) -> (r:
    bool)
    requires
        old(families).wf(),
    ensures
        final(families).wf(),
        r == is_sampled(family_of(record@.id, record@.parent_id, old(families)@), rate),
        final(families)@ == families_with(old(families)@, record@, rate),
{
    if ONE <= rate.bits && rate.bits <= INFINITE {
        return true;
    }
    if rate.bits == 0 || rate.bits > INFINITE {
        return false;
    }
    let family: u64 = match record.parent_id {
        None => record.id,
        Some(p) => match families.get(&p) {
            Some(known) => *known,
            None => p,
        },
    };
    remember(families, record.id, family);
    let a: u64 = family.wrapping_mul(0x9E37_79B9_7F4A_7C15);
    let b: u64 = a ^ (a >> 33);
    let c: u64 = b.wrapping_mul(0xC2B2_AE3D_27D4_EB4F);
    let d: u64 = c ^ (c >> 29);
    is_share_below(whole_double_of(d as u128), rate.bits)
}

/// While a span is remembered, a child of it is sampled exactly when that span
/// is, and is remembered with the same family. A rate of one takes every
/// family, and one of zero none.
pub proof fn children_are_sampled_with_their_parent(
    families: Map<u64, u64>,
    parent: SpanRecordModel,
    child: SpanRecordModel,
    rate: Double,
)
    requires
        child.parent_id == Some(parent.id),
        is_partial(rate) ==> families_with(families, parent, rate).dom().contains(parent.id),
    ensures
        ({
            let family = family_of(parent.id, parent.parent_id, families);
            let known = families_with(families, parent, rate);
            &&& is_sampled(family_of(child.id, child.parent_id, known), rate) == is_sampled(
                family,
                rate,
            )
            &&& is_partial(rate) && families_with(known, child, rate).dom().contains(child.id)
                ==> families_with(known, child, rate)[child.id] == family
        }),
        rate.reaches(ONE) ==> is_sampled(child.id, rate),
        rate.is_zero() ==> !is_sampled(child.id, rate),
{
}

/// A root holds a text in its name or in the value of a field.
pub open spec fn root_holds(root: SpanRecordModel, needle: Text) -> bool {
    has_part(root.metadata.name, needle) || exists|i: int|
        0 <= i < root.fields.len() && has_part((#[trigger] root.fields[i]).1.text, needle)
}

/// Whether a root holds a text in its name or in the value of a field.
pub fn root_matches(record: &SpanRecord, needle: &str) -> (r: bool)
    ensures
        r == root_holds(record@, needle@),
{
    if contains_text(record.metadata.name.as_str(), needle) {
        return true;
    }
    let mut i: usize = 0;
    while i < record.fields.len()
        invariant
            i <= record.fields@.len(),
            forall|j: int| 0 <= j < i ==> !has_part((#[trigger] record@.fields[j]).1.text, needle@),
        decreases record.fields@.len() - i,
    {
        assert(record@.fields[i as int].1 == record.fields@[i as int].1@);
        if record.fields[i].1.contains(needle) {
            return true;
        }
        i = i + 1;
    }
    false
}

/// What a filter says of a span, where decisions about earlier spans are
/// known. A root is looked at itself; other spans follow their parent, and
/// are left out where nothing is known of it.
pub open spec fn filter_says(
    span: SpanRecordModel,
    needle: Text,
    decisions: Map<u64, bool>,
) -> bool {
    match span.parent_id {
        None => root_holds(span, needle),
        Some(p) => decisions.dom().contains(p) && decisions[p],
    }
}

/// The filter asks for something.
pub open spec fn is_filter(filter: Option<Text>) -> bool {
    filter is Some && filter->0.len() > 0
}

/// The decisions that are known after a filter has looked at a span.
pub open spec fn decisions_with(
    decisions: Map<u64, bool>,
    span: SpanRecordModel,
    filter: Option<Text>,
) -> Map<u64, bool> {
    if is_filter(filter) {
        remembered(decisions, span.id, filter_says(span, filter->0, decisions))
    } else {
        decisions
    }
}

/// Whether a filter lets a span through. What was decided is remembered for
/// the span's children.
pub fn filter_passes(
    record: &SpanRecord,
    filter: &Option<String>,
    roots: &mut SortedMap<u64, bool>,
) -> (r: bool)
    requires
        old(roots).wf(),
    ensures
        final(roots).wf(),
        r == (is_filter(slot_model(*filter)) ==> filter_says(
            record@,
            slot_model(*filter)->0,
            old(roots)@,
        )),
        final(roots)@ == decisions_with(old(roots)@, record@, slot_model(*filter)),
{
    let needle: &str = match filter {
        None => return true,
        Some(s) => s.as_str(),
    };
    if needle.is_empty() {
        return true;
    }
    let decision: bool = match record.parent_id {
        None => root_matches(record, needle),
        Some(p) => match roots.get(&p) {
            Some(known) => *known,
            None => false,
        },
    };
    remember(roots, record.id, decision);
    decision
}

/// What a console has asked of its stream.
pub struct StreamState {
    pub streaming: bool,
    /// The least severe level to stream.
    pub min_level: Option<WireLevel>,
    /// The fraction of span families to stream.
    pub sampling_rate: Double,
    /// The text that the root of a family must hold.
    pub root_filter: Option<String>,
}

impl StreamState {
    pub fn new() -> (s: Self)
        ensures
            !s.streaming,
            s.min_level is None,
            s.sampling_rate == (Double { bits: ONE }),
            s.root_filter is None,
    {
        StreamState {
            streaming: false,
            min_level: None,
            sampling_rate: Double { bits: ONE },
            root_filter: None,
        }
    }
}

/// What all connections share: the recording level and chance, and how many
/// consoles stream.
#[derive(Debug, Clone, Copy, PartialEq, Eq, Structural)]
pub struct CacheLevelBroadcast {
    pub level: WireLevelFilter,
    /// In percent.
    pub chance: Double,
    pub active_streams: usize,
}

/// What all connections share after a level was asked for.
pub open spec fn with_level(b: CacheLevelBroadcast, filter: WireLevelFilter) -> CacheLevelBroadcast {
    CacheLevelBroadcast { level: filter, ..b }
}

/// What all connections share after a console stopped to stream. After the
/// last one, recording is switched off and the chance is full again.
pub open spec fn stream_left(b: CacheLevelBroadcast) -> CacheLevelBroadcast {
    if b.active_streams == 1 {
        CacheLevelBroadcast {
            level: WireLevelFilter::Off,
            chance: Double { bits: HUNDRED },
            active_streams: 0,
        }
    } else {
        CacheLevelBroadcast { active_streams: (b.active_streams - 1) as usize, ..b }
    }
}

impl CacheLevelBroadcast {
    pub fn new(level: WireLevelFilter, chance: Double) -> (b: Self)
        ensures
            b == (CacheLevelBroadcast { level, chance, active_streams: 0 }),
    {
        CacheLevelBroadcast { level, chance, active_streams: 0 }
    }

    /// Changes the recording level. Tells whether the closed spans must be
    /// forgotten.
    pub fn set_level(&mut self, filter: WireLevelFilter) -> (clear: bool)
        ensures
            *final(self) == with_level(*old(self), filter),
            clear == (filter == WireLevelFilter::Off),
    {
        self.level = filter;
        matches!(filter, WireLevelFilter::Off)
    }

    /// Changes the recording chance.
    pub fn set_chance(&mut self, pct: Double)
        ensures
            *final(self) == (CacheLevelBroadcast { chance: clamped_chance(pct), ..*old(self) }),
    {
        self.chance = clamp_pct(pct);
    }

    /// One more console streams.
    pub fn enter_stream(&mut self)
        requires
            old(self).active_streams < usize::MAX,
        ensures
            *final(self) == (CacheLevelBroadcast {
                active_streams: (old(self).active_streams + 1) as usize,
                ..*old(self)
            }),
    {
        self.active_streams = self.active_streams + 1;
    }

    /// One console less streams. Tells whether the closed spans must be
    /// forgotten.
    pub fn leave_stream(&mut self) -> (clear: bool)
        requires
            old(self).active_streams > 0,
        ensures
            *final(self) == stream_left(*old(self)),
            clear == (old(self).active_streams == 1),
    {
        if self.active_streams == 1 {
            self.level = WireLevelFilter::Off;
            self.chance = Double { bits: HUNDRED };
            self.active_streams = 0;
            true
        } else {
            self.active_streams = self.active_streams - 1;
            false
        }
    }
}

/// When the last console goes, recording is off; while others are there,
/// nothing changes for them.
pub proof fn last_console_switches_off(b: CacheLevelBroadcast)
    requires
        b.active_streams > 0,
    ensures
        stream_left(b).active_streams == b.active_streams - 1,
        stream_left(b).active_streams == 0 ==> stream_left(b).level == WireLevelFilter::Off
            && stream_left(b).chance == (Double { bits: HUNDRED }),
        stream_left(b).active_streams > 0 ==> stream_left(b).level == b.level && stream_left(
            b,
        ).chance == b.chance,
{
}

/// What the host keeps for one connection.
pub struct ConnectionState {
    pub state: StreamState,
    /// Whether the connection counts among those that stream.
    counted: bool,
    /// What the filter decided about earlier spans.
    root_decisions: SortedMap<u64, bool>,
    /// The families of earlier spans, by the ids of their roots.
    families: SortedMap<u64, u64>,
}

pub ghost struct ConnectionModel {
    pub streaming: bool,
    pub min_level: Option<WireLevel>,
    pub sampling_rate: Double,
    pub root_filter: Option<Text>,
    pub counted: bool,
    pub decisions: Map<u64, bool>,
    pub families: Map<u64, u64>,
}

impl View for ConnectionState {
    type V = ConnectionModel;

    closed spec fn view(&self) -> ConnectionModel {
        ConnectionModel {
            streaming: self.state.streaming,
            min_level: self.state.min_level,
            sampling_rate: self.state.sampling_rate,
            root_filter: slot_model(self.state.root_filter),
            counted: self.counted,
            decisions: self.root_decisions@,
            families: self.families@,
        }
    }
}

/// A connection on which nothing was asked for.
pub open spec fn fresh_connection() -> ConnectionModel {
    ConnectionModel {
        streaming: false,
        min_level: None,
        sampling_rate: Double { bits: ONE },
        root_filter: None,
        counted: false,
        decisions: Map::empty(),
        families: Map::empty(),
    }
}

/// The refusal of a sampling rate that is written as `shown`.
pub open spec fn refusal(shown: Text) -> Text {
    "sampling rate "@ + shown + " out of range [0.0, 1.0]"@
}

/// The refusal of a sampling rate that is written as `shown`.
pub fn refuse_rate(shown: &str) -> (r: String)
    ensures
        r@ == refusal(shown@),
{
    let mut text: String = "sampling rate ".to_owned();
    text.append(shown);
    text.append(" out of range [0.0, 1.0]");
    text
}

/// A connection after a request.
pub open spec fn connection_after(c: ConnectionModel, body: RequestBody) -> ConnectionModel {
    match body {
        RequestBody::StartStream => ConnectionModel { streaming: true, counted: true, ..c },
        RequestBody::StopStream => ConnectionModel { streaming: false, ..c },
        RequestBody::SetLevel(level) => ConnectionModel { min_level: Some(level), ..c },
        RequestBody::SetSamplingRate(asked) => if asked.rate.lies_within(ONE) {
            ConnectionModel { sampling_rate: asked.rate, decisions: Map::empty(), ..c }
        } else {
            c
        },
        RequestBody::SetFilter(f) => ConnectionModel {
            root_filter: slot_model(f),
            decisions: Map::empty(),
            ..c
        },
        _ => c,
    }
}

/// What all connections share after a request on one of them.
pub open spec fn broadcast_after(
    b: CacheLevelBroadcast,
    c: ConnectionModel,
    body: RequestBody,
) -> CacheLevelBroadcast {
    match body {
        RequestBody::StartStream => if c.counted {
            b
        } else {
            CacheLevelBroadcast { active_streams: (b.active_streams + 1) as usize, ..b }
        },
        RequestBody::SetCacheLevel(filter) => with_level(b, filter),
        RequestBody::SetCacheChance(pct) => CacheLevelBroadcast {
            chance: clamped_chance(pct),
            ..b
        },
        _ => b,
    }
}

/// How a request is answered at once, if it is.
pub open spec fn answer_to(id: u64, body: RequestBody) -> Option<ResponseModel> {
    match body {
        RequestBody::Noop => None,
        RequestBody::StartStream => None,
        RequestBody::SetSamplingRate(asked) => if asked.rate.lies_within(ONE) {
            Some(response_to(id, BodyModel::Ack))
        } else {
            Some(response_to(id, BodyModel::Error(refusal(asked.shown@))))
        },
        _ => Some(response_to(id, BodyModel::Ack)),
    }
}

/// What the host does on a request.
pub enum RpcReply {
    /// Nothing.
    Silent,
    /// Begin to stream under the id of the request.
    Stream(u64),
    /// Answer at once.
    Immediate(Response),
}

/// What the host does on a request, and whether the closed spans must be
/// forgotten first.
pub struct RpcOutcome {
    pub reply: RpcReply,
    pub clear: bool,
}

/// A span that is looked at for streaming: what is remembered afterwards, and
/// whether it is streamed. What is decided about its family is remembered even
/// where the span itself is not streamed.
pub open spec fn vetted(c: ConnectionModel, span: SpanRecordModel) -> (ConnectionModel, bool) {
    (
        ConnectionModel {
            families: families_with(c.families, span, c.sampling_rate),
            decisions: decisions_with(c.decisions, span, c.root_filter),
            ..c
        },
        considered(c, span) && in_filter(c, span),
    )
}

/// The filter lets the family of a span through.
pub open spec fn in_filter(c: ConnectionModel, span: SpanRecordModel) -> bool {
    is_filter(c.root_filter) ==> filter_says(span, c.root_filter->0, c.decisions)
}

/// The family of a span is among those that are sampled.
pub open spec fn in_sample(c: ConnectionModel, span: SpanRecordModel) -> bool {
    is_sampled(family_of(span.id, span.parent_id, c.families), c.sampling_rate)
}

/// A span that neither its level nor its family keeps from being streamed.
pub open spec fn considered(c: ConnectionModel, span: SpanRecordModel) -> bool {
    &&& c.min_level is Some ==> level_rank(span.metadata.level) <= level_rank(c.min_level->0)
    &&& in_sample(c, span)
}

/// What a batch of closed spans is streamed as.
pub open spec fn streamed(
    c: ConnectionModel,
    batch: Seq<SpanRecordModel>,
    base: TimeBase,
    id: u64,
) -> (ConnectionModel, Seq<ResponseModel>)
    decreases batch.len(),
{
    if batch.len() == 0 {
        (c, Seq::empty())
    } else {
        let (before, sent) = streamed(c, batch.drop_last(), base, id);
        let (after, passes) = vetted(before, batch.last());
        (
            after,
            if passes {
                sent.push(response_to(id, BodyModel::Span(wire_span(batch.last(), base))))
            } else {
                sent
            },
        )
    }
}

pub open spec fn responses_model(rs: Seq<Response>) -> Seq<ResponseModel> {
    rs.map_values(|r: Response| r@)
}

impl ConnectionState {
    pub closed spec fn wf(&self) -> bool {
        &&& self.root_decisions.wf()
        &&& self.families.wf()
        &&& self.root_decisions@.dom().len() <= MEMO_BUDGET
        &&& self.families@.dom().len() <= MEMO_BUDGET
    }

    /// A connection remembers no more than there is room for.
    pub proof fn memory_is_within_budget(&self)
        requires
            self.wf(),
        ensures
            self@.decisions.dom().finite(),
            self@.decisions.dom().len() <= MEMO_BUDGET,
            self@.families.dom().finite(),
            self@.families.dom().len() <= MEMO_BUDGET,
    {
        first_is_smallest(&self.root_decisions);
        first_is_smallest(&self.families);
    }

    pub fn new() -> (c: Self)
        ensures
            c.wf(),
            c@ == fresh_connection(),
    {
        let c = ConnectionState {
            state: StreamState::new(),
            counted: false,
            root_decisions: SortedMap::new(),
            families: SortedMap::new(),
        };
        assert(c@.decisions =~= Map::empty());
        assert(c@.families =~= Map::empty());
        c
    }

    /// Answers a request.
    pub fn new_rpc(&mut self, bus: &mut CacheLevelBroadcast, msg: Request) -> (r: RpcOutcome)
        requires
            old(self).wf(),
            old(bus).active_streams < usize::MAX,
        ensures
            final(self).wf(),
            final(self)@ == connection_after(old(self)@, msg.body),
            *final(bus) == broadcast_after(*old(bus), old(self)@, msg.body),
            match r.reply {
                RpcReply::Silent => msg.body is Noop,
                RpcReply::Stream(id) => msg.body is StartStream && id == msg.id,
                RpcReply::Immediate(response) => answer_to(msg.id, msg.body) == Some(response@),
            },
            r.clear == (msg.body matches RequestBody::SetCacheLevel(f) && f
                == WireLevelFilter::Off),
    {
        let id: u64 = msg.message_id();
        let mut clear: bool = false;
        match msg.body {
            RequestBody::StartStream => {
                self.state.streaming = true;
                if !self.counted {
                    self.counted = true;
                    bus.enter_stream();
                }
                return RpcOutcome { reply: RpcReply::Stream(id), clear };
            },
            RequestBody::StopStream => {
                self.state.streaming = false;
            },
            RequestBody::SetLevel(level) => {
                self.state.min_level = Some(level);
            },
            RequestBody::SetCacheLevel(filter) => {
                clear = bus.set_level(filter);
            },
            RequestBody::SetCacheChance(pct) => bus.set_chance(pct),
            RequestBody::SetSamplingRate(asked) => {
                let rate = asked.rate;
                if rate.bits > ONE && rate.bits != SIGN {
                    let text = refuse_rate(asked.shown.as_str());
                    return RpcOutcome {
                        reply: RpcReply::Immediate(Response::error(text).with_id(id)),
                        clear,
                    };
                }
                self.state.sampling_rate = rate;
                self.root_decisions = SortedMap::new();
                assert(self@.decisions =~= Map::empty());
            },
            RequestBody::SetFilter(f) => {
                self.state.root_filter = f;
                self.root_decisions = SortedMap::new();
                assert(self@.decisions =~= Map::empty());
            },
            RequestBody::Noop => return RpcOutcome { reply: RpcReply::Silent, clear },
        }
        RpcOutcome { reply: RpcReply::Immediate(Response::ack().with_id(id)), clear }
    }

    /// The connection ends. Tells whether the closed spans must be forgotten.
    pub fn disconnect(&mut self, bus: &mut CacheLevelBroadcast) -> (clear: bool)
        requires
            old(self).wf(),
            old(self)@.counted ==> old(bus).active_streams > 0,
        ensures
            final(self).wf(),
            final(self)@ == (ConnectionModel { counted: false, ..old(self)@ }),
            *final(bus) == if old(self)@.counted {
                stream_left(*old(bus))
            } else {
                *old(bus)
            },
            clear == (old(self)@.counted && old(bus).active_streams == 1),
    {
        if self.counted {
            self.counted = false;
            bus.leave_stream()
        } else {
            false
        }
    }

    /// Whether a closed span is streamed.
    pub fn vet(&mut self, record: &SpanRecord) -> (r: bool)
        requires
            old(self).wf(),
        ensures
            final(self).wf(),
            (final(self)@, r) == vetted(old(self)@, record@),
    {
        proof {
            self.memory_is_within_budget();
            memory_is_bounded(
                self@.families,
                record@.id,
                family_of(record@.id, record@.parent_id, self@.families),
            );
            if is_filter(self@.root_filter) {
                memory_is_bounded(
                    self@.decisions,
                    record@.id,
                    filter_says(record@, self@.root_filter->0, self@.decisions),
                );
            }
        }
        let sampled: bool = sampling_passes(record, self.state.sampling_rate, &mut self.families);
        let let_through: bool = filter_passes(
            record,
            &self.state.root_filter,
            &mut self.root_decisions,
        );
        if let Some(floor) = self.state.min_level {
            if !level_at_least(record.metadata.level, floor) {
                return false;
            }
        }
        sampled && let_through
    }

    /// What a batch of closed spans is streamed as.
    pub fn stream_batch(&mut self, batch: &Vec<SpanRecord>, base: TimeBase, id: u64) -> (r: Vec<
        Response,
    >)
        requires
            old(self).wf(),
            forall|i: int, j: int|
                0 <= i < batch@.len() && 0 <= j < batch@[i]@.events.len() ==> is_filled(
                    #[trigger] batch@[i]@.events[j],
                ),
        ensures
            final(self).wf(),
            (final(self)@, responses_model(r@)) == streamed(
                old(self)@,
                crate::cache::driver::records_model(batch@),
                base,
                id,
            ),
    {
        let ghost start = self@;
        let ghost given = crate::cache::driver::records_model(batch@);
        let mut out: Vec<Response> = Vec::new();
        let mut i: usize = 0;
        assert(given.take(0) =~= Seq::empty());
        assert(responses_model(out@) =~= Seq::empty());
        while i < batch.len()
            invariant
                self.wf(),
                given == crate::cache::driver::records_model(batch@),
                i <= batch@.len(),
                forall|i: int, j: int|
                    0 <= i < batch@.len() && 0 <= j < batch@[i]@.events.len() ==> is_filled(
                        #[trigger] batch@[i]@.events[j],
                    ),
                (self@, responses_model(out@)) == streamed(start, given.take(i as int), base, id),
            decreases batch@.len() - i,
        {
            let ghost sent = responses_model(out@);
            proof {
                assert(given.take(i + 1).drop_last() =~= given.take(i as int));
                assert(given.take(i + 1).last() == batch@[i as int]@);
            }
            if self.vet(&batch[i]) {
                let response = Response::span(span_to_wire(&batch[i], base)).with_id(id);
                out.push(response);
                assert(responses_model(out@) =~= sent.push(response@));
            }
            i = i + 1;
        }
        assert(given.take(i as int) =~= given);
        out
    }
}

/// Every answer carries the id of its request.
pub proof fn answers_echo_their_request(id: u64, body: RequestBody)
    ensures
        answer_to(id, body) is Some ==> answer_to(id, body)->0.id == id,
        !(body is Noop) && !(body is StartStream) ==> answer_to(id, body) is Some,
{
}

/// Children go with their root: where both are considered, a child of a span
/// that is remembered is streamed exactly when that span is.
pub proof fn children_follow_their_parent(
    c: ConnectionModel,
    parent: SpanRecordModel,
    child: SpanRecordModel,
)
    requires
        considered(c, parent),
        considered(vetted(c, parent).0, child),
        child.parent_id == Some(parent.id),
        is_filter(c.root_filter) ==> vetted(c, parent).0.decisions.dom().contains(parent.id),
    ensures
        ({
            let (after, streamed_parent) = vetted(c, parent);
            vetted(after, child).1 == streamed_parent
        }),
{
}

/// Where nothing is asked for, every span is streamed, in order.
pub proof fn everything_is_streamed(
    c: ConnectionModel,
    batch: Seq<SpanRecordModel>,
    base: TimeBase,
    id: u64,
)
    requires
        c.min_level is None,
        c.sampling_rate.reaches(ONE),
        !is_filter(c.root_filter),
    ensures
        streamed(c, batch, base, id) == (
            c,
            batch.map_values(
                |span: SpanRecordModel| response_to(id, BodyModel::Span(wire_span(span, base))),
            ),
        ),
    decreases batch.len(),
{
    let sent = batch.map_values(
        |span: SpanRecordModel| response_to(id, BodyModel::Span(wire_span(span, base))),
    );
    if batch.len() == 0 {
        assert(sent =~= Seq::empty());
    } else {
        everything_is_streamed(c, batch.drop_last(), base, id);
        assert(sent =~= streamed(c, batch, base, id).1);
    }
}

/// How spans are cut into batches makes no difference to what is streamed.
pub proof fn batches_join(
    c: ConnectionModel,
    first: Seq<SpanRecordModel>,
    second: Seq<SpanRecordModel>,
    base: TimeBase,
    id: u64,
)
    ensures
        ({
            let (between, sent) = streamed(c, first, base, id);
            let (after, more) = streamed(between, second, base, id);
            streamed(c, first + second, base, id) == (after, sent + more)
        }),
    decreases second.len(),
{
    let (between, sent) = streamed(c, first, base, id);
    let (after, more) = streamed(between, second, base, id);
    let whole = streamed(c, first + second, base, id);
    if second.len() == 0 {
        assert(first + second =~= first);
        assert(sent + more =~= sent);
    } else {
        batches_join(c, first, second.drop_last(), base, id);
        assert((first + second).drop_last() =~= first + second.drop_last());
        assert((first + second).last() == second.last());
        assert(whole.1 =~= sent + more);
    }
}

/// Span `j` of a batch descends from span `i`, through spans that came
/// between them.
pub open spec fn descends(batch: Seq<SpanRecordModel>, i: int, j: int) -> bool
    decreases j - i,
{
    i == j || exists|k: int|
        #![trigger batch[k]]
        i <= k < j && batch[j].parent_id == Some(batch[k].id) && descends(batch, i, k)
}

/// No two spans of a batch have the same id.
pub open spec fn distinct_ids(batch: Seq<SpanRecordModel>) -> bool {
    forall|i: int, j: int|
        0 <= i < j < batch.len() ==> (#[trigger] batch[i]).id != (#[trigger] batch[j]).id
}

/// There is room to remember what is decided of so many more spans.
pub open spec fn has_memory_for(c: ConnectionModel, n: nat) -> bool {
    &&& c.families.dom().finite()
    &&& c.families.dom().len() + n <= MEMO_BUDGET
    &&& c.decisions.dom().finite()
    &&& c.decisions.dom().len() + n <= MEMO_BUDGET
}

/// What is known of a connection when span `i` of a batch is looked at.
pub open spec fn state_at(
    c: ConnectionModel,
    batch: Seq<SpanRecordModel>,
    base: TimeBase,
    id: u64,
    i: int,
) -> ConnectionModel {
    streamed(c, batch.take(i), base, id).0
}

/// The family of span `i` is remembered from then on.
proof fn families_are_kept(
    c: ConnectionModel,
    batch: Seq<SpanRecordModel>,
    base: TimeBase,
    id: u64,
    i: int,
    n: int,
)
    requires
        is_partial(c.sampling_rate),
        distinct_ids(batch),
        has_memory_for(c, batch.len()),
        0 <= i < n <= batch.len(),
    ensures
        ({
            let then = state_at(c, batch, base, id, i).families;
            let now = state_at(c, batch, base, id, n).families;
            now.dom().contains(batch[i].id) && now[batch[i].id] == family_of(
                batch[i].id,
                batch[i].parent_id,
                then,
            )
        }),
    decreases n,
{
    rate_is_kept(c, batch, base, id, n - 1);
    memory_lasts(c, batch, base, id, n - 1);
    let before = state_at(c, batch, base, id, n - 1).families;
    let last = batch[n - 1];
    memory_is_bounded(before, last.id, family_of(last.id, last.parent_id, before));
    assert(batch.take(n).drop_last() =~= batch.take(n - 1));
    assert(batch.take(n).last() == batch[n - 1]);
    if i < n - 1 {
        families_are_kept(c, batch, base, id, i, n - 1);
    }
}

/// What the filter decided of span `i` is remembered from then on.
proof fn decisions_are_kept(
    c: ConnectionModel,
    batch: Seq<SpanRecordModel>,
    base: TimeBase,
    id: u64,
    i: int,
    n: int,
)
    requires
        is_filter(c.root_filter),
        distinct_ids(batch),
        has_memory_for(c, batch.len()),
        0 <= i < n <= batch.len(),
    ensures
        ({
            let now = state_at(c, batch, base, id, n).decisions;
            now.dom().contains(batch[i].id) && now[batch[i].id] == in_filter(
                state_at(c, batch, base, id, i),
                batch[i],
            )
        }),
    decreases n,
{
    rate_is_kept(c, batch, base, id, n - 1);
    rate_is_kept(c, batch, base, id, i);
    memory_lasts(c, batch, base, id, n - 1);
    let before = state_at(c, batch, base, id, n - 1).decisions;
    let last = batch[n - 1];
    memory_is_bounded(before, last.id, filter_says(last, c.root_filter->0, before));
    assert(batch.take(n).drop_last() =~= batch.take(n - 1));
    assert(batch.take(n).last() == batch[n - 1]);
    if i < n - 1 {
        decisions_are_kept(c, batch, base, id, i, n - 1);
    }
}

proof fn rate_is_kept(
    c: ConnectionModel,
    batch: Seq<SpanRecordModel>,
    base: TimeBase,
    id: u64,
    n: int,
)
    requires
        0 <= n <= batch.len(),
    ensures
        state_at(c, batch, base, id, n).sampling_rate == c.sampling_rate,
        state_at(c, batch, base, id, n).root_filter == c.root_filter,
    decreases n,
{
    if n > 0 {
        rate_is_kept(c, batch, base, id, n - 1);
        assert(batch.take(n).drop_last() =~= batch.take(n - 1));
    }
}

/// Each span takes up room for one decision of each kind.
proof fn memory_lasts(
    c: ConnectionModel,
    batch: Seq<SpanRecordModel>,
    base: TimeBase,
    id: u64,
    n: int,
)
    requires
        has_memory_for(c, batch.len()),
        0 <= n <= batch.len(),
    ensures
        has_memory_for(state_at(c, batch, base, id, n), (batch.len() - n) as nat),
    decreases n,
{
    if n > 0 {
        memory_lasts(c, batch, base, id, n - 1);
        let before = state_at(c, batch, base, id, n - 1);
        let last = batch[n - 1];
        memory_is_bounded(
            before.families,
            last.id,
            family_of(last.id, last.parent_id, before.families),
        );
        if is_filter(before.root_filter) {
            memory_is_bounded(
                before.decisions,
                last.id,
                filter_says(last, before.root_filter->0, before.decisions),
            );
        }
        assert(batch.take(n).drop_last() =~= batch.take(n - 1));
        assert(batch.take(n).last() == last);
    } else {
        assert(batch.take(0) =~= Seq::empty());
    }
}

/// A span that is sampled out takes its whole subtree with it, and one that
/// is not keeps it, however deep a descendant hangs and whatever came between,
/// as long as all of it can be remembered.
pub proof fn families_are_sampled_as_one(
    c: ConnectionModel,
    batch: Seq<SpanRecordModel>,
    base: TimeBase,
    id: u64,
    i: int,
    j: int,
)
    requires
        distinct_ids(batch),
        has_memory_for(c, batch.len()),
        0 <= i <= j < batch.len(),
        descends(batch, i, j),
    ensures
        in_sample(state_at(c, batch, base, id, i), batch[i]) == in_sample(
            state_at(c, batch, base, id, j),
            batch[j],
        ),
{
    rate_is_kept(c, batch, base, id, i);
    rate_is_kept(c, batch, base, id, j);
    if is_partial(c.sampling_rate) {
        descendants_share_a_family(c, batch, base, id, i, j);
    }
}

/// A span passes the filter exactly when its root does, however deep it hangs,
/// whatever came between, and whatever the levels of both, as long as all of
/// it can be remembered.
pub proof fn families_are_filtered_as_one(
    c: ConnectionModel,
    batch: Seq<SpanRecordModel>,
    base: TimeBase,
    id: u64,
    i: int,
    j: int,
)
    requires
        distinct_ids(batch),
        has_memory_for(c, batch.len()),
        0 <= i <= j < batch.len(),
        descends(batch, i, j),
    ensures
        in_filter(state_at(c, batch, base, id, i), batch[i]) == in_filter(
            state_at(c, batch, base, id, j),
            batch[j],
        ),
    decreases j,
{
    rate_is_kept(c, batch, base, id, i);
    rate_is_kept(c, batch, base, id, j);
    if i < j && is_filter(c.root_filter) {
        let k = choose|k: int|
            #![trigger batch[k]]
            i <= k < j && batch[j].parent_id == Some(batch[k].id) && descends(batch, i, k);
        families_are_filtered_as_one(c, batch, base, id, i, k);
        decisions_are_kept(c, batch, base, id, k, j);
    }
}

proof fn descendants_share_a_family(
    c: ConnectionModel,
    batch: Seq<SpanRecordModel>,
    base: TimeBase,
    id: u64,
    i: int,
    j: int,
)
    requires
        is_partial(c.sampling_rate),
        distinct_ids(batch),
        has_memory_for(c, batch.len()),
        0 <= i <= j < batch.len(),
        descends(batch, i, j),
    ensures
        family_of(batch[i].id, batch[i].parent_id, state_at(c, batch, base, id, i).families)
            == family_of(
            batch[j].id,
            batch[j].parent_id,
            state_at(c, batch, base, id, j).families,
        ),
    decreases j,
{
    if i < j {
        let k = choose|k: int|
            #![trigger batch[k]]
            i <= k < j && batch[j].parent_id == Some(batch[k].id) && descends(batch, i, k);
        descendants_share_a_family(c, batch, base, id, i, k);
        families_are_kept(c, batch, base, id, k, j);
    }
}

/// A stream of closed spans under way.
pub struct StreamTask {
    /// The id of the span that was looked at last.
    cursor: u64,
    /// How long to wait before looking again, in nanoseconds.
    interval: u64,
    request_id: u64,
    base: TimeBase,
}

pub ghost struct TaskModel {
    pub cursor: u64,
    pub interval: u64,
    pub request_id: u64,
    pub base: TimeBase,
}

impl View for StreamTask {
    type V = TaskModel;

    closed spec fn view(&self) -> TaskModel {
        TaskModel {
            cursor: self.cursor,
            interval: self.interval,
            request_id: self.request_id,
            base: self.base,
        }
    }
}

/// How a stream waits before it looks again.
#[derive(Debug, Clone, Copy, PartialEq, Eq, Structural)]
pub enum Wait {
    /// Only lets others go first.
    Yield,
    /// Sleeps that many nanoseconds, unless something changes.
    Sleep(u64),
}

impl StreamTask {
    pub fn new(request_id: u64, base: TimeBase) -> (t: Self)
        ensures
            t@ == (TaskModel {
                cursor: 0,
                interval: STREAM_POLL_INTERVAL_INITIAL,
                request_id,
                base,
            }),
    {
        StreamTask { cursor: 0, interval: STREAM_POLL_INTERVAL_INITIAL, request_id, base }
    }

    /// What a stream begins with: the recording level and chance.
    pub fn opening(&self, level: WireLevelFilter, chance: Double) -> (r: Vec<Response>)
        ensures
            responses_model(r@) == seq![
                response_to(self@.request_id, BodyModel::CacheLevel(level)),
                response_to(self@.request_id, BodyModel::CacheChance(chance)),
            ],
    {
        let mut out: Vec<Response> = Vec::new();
        out.push(self.level_changed(level));
        out.push(self.chance_changed(chance));
        assert(responses_model(out@) =~= seq![
            response_to(self@.request_id, BodyModel::CacheLevel(level)),
            response_to(self@.request_id, BodyModel::CacheChance(chance)),
        ]);
        out
    }

    /// What is sent when the recording level changes.
    pub fn level_changed(&self, level: WireLevelFilter) -> (r: Response)
        ensures
            r@ == response_to(self@.request_id, BodyModel::CacheLevel(level)),
    {
        Response::cache_level(level).with_id(self.request_id)
    }

    /// What is sent when the recording chance changes.
    pub fn chance_changed(&self, chance: Double) -> (r: Response)
        ensures
            r@ == response_to(self@.request_id, BodyModel::CacheChance(chance)),
    {
        Response::cache_chance(chance).with_id(self.request_id)
    }

    /// How to wait before looking for spans.
    pub fn wait(&self) -> (r: Wait)
        ensures
            r == if self@.interval == 0 {
                Wait::Yield
            } else {
                Wait::Sleep(self@.interval)
            },
    {
        if self.interval == 0 {
            Wait::Yield
        } else {
            Wait::Sleep(self.interval)
        }
    }

    /// Which closed spans to look at: those beyond an id, and how many of
    /// them. None while the console has stopped the stream.
    pub fn wants_page(&self, connection: &ConnectionState) -> (r: Option<(u64, usize)>)
        ensures
            r == if connection@.streaming {
                Some((self@.cursor, STREAM_BATCH))
            } else {
                None
            },
    {
        if connection.state.streaming {
            Some((self.cursor, STREAM_BATCH))
        } else {
            None
        }
    }

    /// Looks at a page of closed spans. Gives what is sent.
    pub fn take_page(&mut self, connection: &mut ConnectionState, batch: &Vec<SpanRecord>) -> (r:
        Vec<Response>)
        requires
            old(connection).wf(),
            forall|i: int, j: int|
                0 <= i < batch@.len() && 0 <= j < batch@[i]@.events.len() ==> is_filled(
                    #[trigger] batch@[i]@.events[j],
                ),
        ensures
            final(connection).wf(),
            (final(connection)@, responses_model(r@)) == streamed(
                old(connection)@,
                crate::cache::driver::records_model(batch@),
                old(self)@.base,
                old(self)@.request_id,
            ),
            final(self)@ == (TaskModel {
                cursor: if batch@.len() > 0 {
                    batch@.last()@.id
                } else {
                    old(self)@.cursor
                },
                interval: next_interval(old(self)@.interval, batch@.len() as u64) as u64,
                ..old(self)@
            }),
    {
        let out = connection.stream_batch(batch, self.base, self.request_id);
        let n: usize = batch.len();
        if n > 0 {
            self.cursor = batch[n - 1].id;
        }
        self.interval = adjust_interval(self.interval, n);
        out
    }
}

} // verus!
