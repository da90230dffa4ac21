//! What a console may count on from its host.

use vstd::prelude::*;

use crate::cache::driver::{is_smallest, smallest_exists};
use crate::cache::predicate::{clamped_chance, filter_at, lets_through};
use crate::cache::record::SpanRecordModel;
use crate::double::{whole_double, whole_doubles_are_close};
use crate::model::graph::slot_model;
use crate::pattern::{units, units_of_one, Double, ONE, SIGN};
use crate::protocol::{AskedRate, BodyModel, RequestBody, Text, WireLevel, WireLevelFilter};
use crate::server::{
    answer_to, broadcast_after, connection_after, family_of, fresh_connection, in_filter,
    in_sample, is_partial, is_sampled, next_interval, refusal, remembered, root_holds, rounded,
    scrambled, state_at, stream_left, streamed, vetted, CacheLevelBroadcast, ConnectionModel,
    MEMO_BUDGET, SHORTEST_SLEEP, STREAM_MAX_INTERVAL, STREAM_TARGET_BATCH,
};
use crate::text::has_part;
use crate::wire::{wire_span, TimeBase};

verus! {

/// A level is at least as severe as another.
pub open spec fn as_severe(level: WireLevel, floor: WireLevel) -> bool {
    match floor {
        WireLevel::Error => level is Error,
        WireLevel::Warn => level is Error || level is Warn,
        WireLevel::Info => !(level is Debug) && !(level is Trace),
        WireLevel::Debug => !(level is Trace),
        WireLevel::Trace => true,
    }
}

/// A filter lets through what is at least as severe as its level, and the
/// filter that is off lets nothing through.
pub proof fn filters_let_the_severe_through(floor: WireLevel, level: WireLevel)
    ensures
        lets_through(filter_at(floor), level) <==> as_severe(level, floor),
        !lets_through(WireLevelFilter::Off, level),
{
}

/// What is streamed of a batch are spans of the batch, in its order and none
/// of them twice, each as it was recorded and under the id of the request. A
/// span is left out only where its level is below the one asked for, where its
/// family is not sampled, or where the filter does not let its family through.
/// Returns where the streamed spans stand in the batch.
pub proof fn the_spans_asked_for_are_streamed(
    c: ConnectionModel,
    batch: Seq<SpanRecordModel>,
    base: TimeBase,
    id: u64,
) -> (at: Seq<int>)
    ensures
        ({
            let (after, sent) = streamed(c, batch, base, id);
            &&& at.len() == sent.len()
            &&& forall|k: int, l: int|
                0 <= k < l < at.len() ==> #[trigger] at[k] < #[trigger] at[l]
            &&& forall|k: int|
                0 <= k < at.len() ==> {
                    let span = batch[#[trigger] at[k]];
                    &&& 0 <= at[k] < batch.len()
                    &&& sent[k].id == id
                    &&& sent[k].body == BodyModel::Span(wire_span(span, base))
                    &&& c.min_level is Some ==> as_severe(span.metadata.level, c.min_level->0)
                    &&& in_sample(state_at(c, batch, base, id, at[k]), span)
                    &&& in_filter(state_at(c, batch, base, id, at[k]), span)
                }
            &&& forall|i: int|
                0 <= i < batch.len() && (c.min_level is Some ==> as_severe(
                    (#[trigger] batch[i]).metadata.level,
                    c.min_level->0,
                )) && in_sample(state_at(c, batch, base, id, i), batch[i]) && in_filter(
                    state_at(c, batch, base, id, i),
                    batch[i],
                ) ==> at.contains(i)
            &&& after.streaming == c.streaming
            &&& after.min_level == c.min_level
            &&& after.sampling_rate == c.sampling_rate
            &&& after.root_filter == c.root_filter
            &&& after.counted == c.counted
        }),
    decreases batch.len(),
{
    if batch.len() == 0 {
        Seq::empty()
    } else {
        let front = batch.drop_last();
        let last = batch.len() - 1;
        let before = the_spans_asked_for_are_streamed(c, front, base, id);
        let (now, sent) = streamed(c, front, base, id);
        let passes = vetted(now, batch.last()).1;
        assert(batch.take(last) =~= front);
        assert forall|i: int| 0 <= i < last implies #[trigger] state_at(c, batch, base, id, i)
            == state_at(c, front, base, id, i) by {
            assert(batch.take(i) =~= front.take(i));
        }
        let at = if passes {
            before.push(last)
        } else {
            before
        };
        assert forall|k: int| 0 <= k < before.len() implies batch[#[trigger] before[k]]
            == front[before[k]] by {
        }
        assert forall|i: int|
            0 <= i < batch.len() && (c.min_level is Some ==> as_severe(
                (#[trigger] batch[i]).metadata.level,
                c.min_level->0,
            )) && in_sample(state_at(c, batch, base, id, i), batch[i]) && in_filter(
                state_at(c, batch, base, id, i),
                batch[i],
            ) implies at.contains(i) by {
            if i < last {
                assert(front[i] == batch[i]);
                let k = choose|k: int| 0 <= k < before.len() && before[k] == i;
                assert(at[k] == i);
            } else {
                assert(at[before.len() as int] == i);
            }
        }
        at
    }
}

/// Families are sampled in proportion: one whose scrambled id is a share of
/// all 64-bit numbers below the rate is sampled, and one whose share is not
/// below it is not, but for a difference of one part in two to the
/// fifty-third.
pub proof fn families_are_sampled_in_proportion(family: u64, rate: Double)
    requires
        is_partial(rate),
    ensures
        scrambled(family) * units_of_one() * 0x20_0000_0000_0001 < units(rate.bits as nat)
            * 0x1_0000_0000_0000_0000 * 0x20_0000_0000_0000 ==> is_sampled(family, rate),
        scrambled(family) * units_of_one() * 0x1f_ffff_ffff_ffff >= units(rate.bits as nat)
            * 0x1_0000_0000_0000_0000 * 0x20_0000_0000_0000 ==> !is_sampled(family, rate),
{
    let s = scrambled(family) as nat;
    let w = whole_double(s, 1);
    let one = units_of_one();
    whole_doubles_are_close(s, 1);
    assert((0x20_0000_0000_0000 * w) * one <= (0x20_0000_0000_0001 * s) * one)
        by (nonlinear_arith)
        requires
            0x20_0000_0000_0000 * w <= 0x20_0000_0000_0001 * s,
            one >= 0,
    ;
    assert((0x20_0000_0000_0000 * w) * one >= (0x1f_ffff_ffff_ffff * s) * one)
        by (nonlinear_arith)
        requires
            0x20_0000_0000_0000 * w >= 0x1f_ffff_ffff_ffff * s,
            one >= 0,
    ;
    assert((0x20_0000_0000_0000 * w) * one == 0x20_0000_0000_0000 * (w * one)) by (nonlinear_arith);
    assert((0x20_0000_0000_0001 * s) * one == s * one * 0x20_0000_0000_0001) by (nonlinear_arith);
    assert((0x1f_ffff_ffff_ffff * s) * one == s * one * 0x1f_ffff_ffff_ffff) by (nonlinear_arith);
}

/// A console that starts to stream is counted once, however often it asks,
/// and no longer once it has gone.
pub proof fn consoles_are_counted_once(b: CacheLevelBroadcast, c: ConnectionModel)
    requires
        b.active_streams < usize::MAX,
    ensures
        ({
            let started = connection_after(c, RequestBody::StartStream);
            let one = broadcast_after(b, c, RequestBody::StartStream);
            &&& started.streaming && started.counted
            &&& one.level == b.level && one.chance == b.chance
            &&& c.counted ==> one.active_streams == b.active_streams
            &&& !c.counted ==> one.active_streams == b.active_streams + 1
            &&& broadcast_after(one, started, RequestBody::StartStream) == one
            &&& !c.counted ==> stream_left(one).active_streams == b.active_streams
            &&& connection_after(started, RequestBody::StopStream).counted
            &&& !connection_after(started, RequestBody::StopStream).streaming
        }),
{
}

/// A request changes what it asks for, on its own connection or for all of
/// them, and nothing else. Where it changes whose families pass, what was
/// decided of them before is forgotten.
pub proof fn requests_change_what_they_ask_for(
    c: ConnectionModel,
    b: CacheLevelBroadcast,
    body: RequestBody,
)
    ensures
        ({
            let (d, e) = (connection_after(c, body), broadcast_after(b, c, body));
            &&& d.streaming != c.streaming ==> body is StartStream || body is StopStream
            &&& d.min_level != c.min_level ==> body is SetLevel
            &&& d.sampling_rate != c.sampling_rate ==> body is SetSamplingRate
            &&& d.root_filter != c.root_filter ==> body is SetFilter
            &&& d.counted != c.counted ==> body is StartStream
            &&& d.families == c.families
            &&& d.decisions != c.decisions ==> (body is SetSamplingRate || body is SetFilter)
                && d.decisions == Map::<u64, bool>::empty()
            &&& e.level != b.level ==> body is SetCacheLevel
            &&& e.chance != b.chance ==> body is SetCacheChance
            &&& e.active_streams != b.active_streams ==> body is StartStream
            &&& body is StartStream ==> d.streaming
            &&& body is StopStream ==> !d.streaming
            &&& body matches RequestBody::SetLevel(level) ==> d.min_level == Some(level)
            &&& body matches RequestBody::SetFilter(f) ==> d.root_filter == slot_model(f)
                && d.decisions == Map::<u64, bool>::empty()
            &&& body matches RequestBody::SetCacheLevel(filter) ==> e.level == filter
            &&& body matches RequestBody::SetCacheChance(pct) ==> e.chance == clamped_chance(pct)
        }),
{
}

/// A rate from zero to one is taken and acknowledged. Any other is refused,
/// with an answer that names it, and changes nothing.
pub proof fn rates_out_of_range_are_refused(c: ConnectionModel, id: u64, asked: AskedRate)
    ensures
        ({
            let body = RequestBody::SetSamplingRate(asked);
            let fits = asked.rate.bits <= ONE || asked.rate.bits == SIGN;
            let answer = answer_to(id, body);
            &&& answer is Some && answer->0.id == id
            &&& fits ==> {
                &&& connection_after(c, body).sampling_rate == asked.rate
                &&& connection_after(c, body).decisions == Map::<u64, bool>::empty()
                &&& answer->0.body is Ack
            }
            &&& !fits ==> {
                &&& connection_after(c, body) == c
                &&& answer->0.body is Error
                &&& has_part(answer->0.body->Error_0, asked.shown@)
            }
        }),
{
    let front = "sampling rate "@;
    let text = refusal(asked.shown@);
    assert forall|j: int| 0 <= j < asked.shown@.len() implies #[trigger] text[front.len() + j]
        == asked.shown@[j] by {
    }
    assert(crate::text::occurs_at(text, asked.shown@, front.len() as int));
}

/// A filter looks at the name of a root and at the values of all its fields,
/// and at nothing else.
pub proof fn a_filter_looks_at_name_and_values(root: SpanRecordModel, needle: Text)
    ensures
        has_part(root.metadata.name, needle) ==> root_holds(root, needle),
        forall|i: int|
            0 <= i < root.fields.len() && has_part((#[trigger] root.fields[i]).1.text, needle)
                ==> root_holds(root, needle),
        !has_part(root.metadata.name, needle) && (forall|i: int|
            0 <= i < root.fields.len() ==> !has_part((#[trigger] root.fields[i]).1.text, needle))
            ==> !root_holds(root, needle),
{
}

/// What was decided is what is remembered; where something has to be
/// forgotten, it is what was decided of the smallest id, and nothing else.
pub proof fn the_oldest_decision_goes<V>(memo: Map<u64, V>, id: u64, decision: V, other: u64)
    requires
        memo.dom().finite(),
        memo.dom().len() <= MEMO_BUDGET,
    ensures
        ({
            let after = remembered(memo, id, decision);
            &&& after.dom().contains(id) ==> after[id] == decision
            &&& other != id && after.dom().contains(other) ==> memo.dom().contains(other)
                && after[other] == memo[other]
            &&& (memo.dom().contains(other) || other == id) && !after.dom().contains(other)
                ==> forall|k: u64| #[trigger] after.dom().contains(k) ==> other < k
            &&& memo.dom().contains(id) ==> after.dom() == memo.dom()
        }),
{
    let all = memo.insert(id, decision);
    if all.dom().len() > MEMO_BUDGET {
        assert(!memo.dom().contains(id)) by {
            if memo.dom().contains(id) {
                assert(all.dom() =~= memo.dom());
            }
        }
        smallest_exists(all.dom());
        let gone = choose|k: u64| is_smallest(all.dom(), k);
        assert(is_smallest(all.dom(), gone));
        let after = remembered(memo, id, decision);
        assert forall|k: u64| #[trigger] after.dom().contains(k) implies gone < k by {
            assert(all.dom().contains(k) && k != gone);
        }
    } else {
        if memo.dom().contains(id) {
            assert(all.dom() =~= memo.dom());
        }
    }
}

/// A greater divisor gives no greater quotient.
proof fn quotients_fall(n: int, d: int, e: int)
    requires
        n >= 0,
        0 < d <= e,
    ensures
        rounded(n, e) <= rounded(n, d),
{
    let (a, b) = (rounded(n, d), rounded(n, e));
    vstd::arithmetic::div_mod::lemma_fundamental_div_mod(2 * n + d, 2 * d);
    vstd::arithmetic::div_mod::lemma_fundamental_div_mod(2 * n + e, 2 * e);
    let (r, s) = ((2 * n + d) % (2 * d), (2 * n + e) % (2 * e));
    if b > a {
        assert(false) by (nonlinear_arith)
            requires
                2 * n + d == 2 * d * a + r,
                2 * n + e == 2 * e * b + s,
                0 <= r < 2 * d,
                0 <= s,
                0 < d <= e,
                n >= 0,
                b >= a + 1,
                a >= 0,
        ;
    }
}

/// The more spans a stream finds, the shorter it waits, or as long: beyond
/// the target it never waits longer than before, and below it never shorter.
pub proof fn more_spans_shorten_the_wait(current: u64, few: u64, many: u64)
    requires
        few <= many,
    ensures
        next_interval(current, many) <= next_interval(current, few),
        SHORTEST_SLEEP <= current <= STREAM_MAX_INTERVAL && many >= STREAM_TARGET_BATCH
            ==> next_interval(current, many) <= current,
        SHORTEST_SLEEP <= current <= STREAM_MAX_INTERVAL && few <= STREAM_TARGET_BATCH
            ==> next_interval(current, few) >= current,
{
    let n = current * STREAM_TARGET_BATCH;
    let a = if few > 0 {
        few as int
    } else {
        1
    };
    let b = if many > 0 {
        many as int
    } else {
        1
    };
    assert(n >= 0) by (nonlinear_arith)
        requires
            n == current * STREAM_TARGET_BATCH,
    ;
    quotients_fall(n, a, b);
    let c = current as int;
    assert(rounded(c * 4, 5) <= rounded(c * 6, 5)) by (nonlinear_arith)
        requires
            c >= 0,
    ;
    if SHORTEST_SLEEP <= current <= STREAM_MAX_INTERVAL {
        crate::server::interval_moves_gently(current, STREAM_TARGET_BATCH);
        let t = STREAM_TARGET_BATCH as int;
        if many >= STREAM_TARGET_BATCH {
            quotients_fall(n, t, b);
        }
        if few <= STREAM_TARGET_BATCH {
            quotients_fall(n, a, t);
        }
    }
}

/// A root passes a filter if it holds its text. Any other span passes if its
/// parent is known to have passed; where nothing is known of its parent it
/// does not. Without a text to look for, every span passes. What is decided
/// is remembered under the id of the span.
pub proof fn a_filter_asks_the_root(c: ConnectionModel, span: SpanRecordModel)
    ensures
        ({
            let asks = c.root_filter is Some && c.root_filter->0.len() > 0;
            let known = vetted(c, span).0.decisions;
            &&& !asks ==> in_filter(c, span) && known == c.decisions
            &&& asks && span.parent_id is None ==> (in_filter(c, span) <==> root_holds(
                span,
                c.root_filter->0,
            ))
            &&& asks && span.parent_id is Some ==> (in_filter(c, span) <==> c.decisions.dom().contains(
                span.parent_id->0,
            ) && c.decisions[span.parent_id->0])
            &&& asks && known.dom().contains(span.id) && c.decisions.dom().finite()
                && c.decisions.dom().len() <= MEMO_BUDGET ==> known[span.id] == in_filter(c, span)
        }),
{
    let asks = c.root_filter is Some && c.root_filter->0.len() > 0;
    if asks && c.decisions.dom().finite() && c.decisions.dom().len() <= MEMO_BUDGET {
        the_oldest_decision_goes(c.decisions, span.id, in_filter(c, span), span.id);
    }
}

/// A connection on which nothing was asked for does not stream yet, and once
/// it does it streams everything.
pub proof fn a_new_connection_asks_for_everything(
    batch: Seq<SpanRecordModel>,
    base: TimeBase,
    id: u64,
)
    ensures
        !fresh_connection().streaming,
        !fresh_connection().counted,
        streamed(fresh_connection(), batch, base, id).1.len() == batch.len(),
{
    crate::server::everything_is_streamed(fresh_connection(), batch, base, id);
}

/// A root is a family of its own. Children of a span of which nothing is
/// known belong to the family that this span would found, so that they are
/// sampled alike, and as it would be.
pub proof fn strangers_children_are_sampled_alike(
    a: u64,
    b: u64,
    parent: u64,
    families: Map<u64, u64>,
    rate: Double,
)
    requires
        !families.dom().contains(parent),
    ensures
        family_of(parent, None, families) == parent,
        family_of(a, Some(parent), families) == family_of(b, Some(parent), families),
        is_sampled(family_of(a, Some(parent), families), rate) == is_sampled(parent, rate),
{
}

} // verus!
