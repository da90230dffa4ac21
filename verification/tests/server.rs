//! What the host streams, to whom, and how often it looks.

use std::time::Duration;

use tracing_console::cache::record::{EventRecord, FieldValue, Metadata, SpanRecord};
use tracing_console::pattern::Double;
use tracing_console::protocol::{
    AskedRate, Request, RequestBody, Response, ResponseBody, WireLevel, WireLevelFilter,
};
use tracing_console::server::{
    adjust_interval, filter_passes, level_at_least, refuse_rate, root_matches, sampling_passes,
    CacheLevelBroadcast, ConnectionState, RpcReply, StreamTask, Wait, MEMO_BUDGET, STREAM_BATCH,
    STREAM_MAX_INTERVAL, STREAM_MIN_INTERVAL, STREAM_TARGET_BATCH,
};
use tracing_console::sorted::SortedMap;
use tracing_console::wire::TimeBase;

const TARGET: usize = STREAM_TARGET_BATCH as usize;

fn ms(n: u64) -> u64 {
    n * 1_000_000
}

fn double(x: f64) -> Double {
    Double { bits: x.to_bits() }
}

fn asked(x: f64) -> AskedRate {
    AskedRate { rate: double(x), shown: x.to_string() }
}

#[test]
fn adjust_interval_holds_steady_at_target() {
    assert_eq!(adjust_interval(ms(50), TARGET), ms(50));
}

#[test]
fn adjust_interval_speeds_up_when_over_target_capped_at_20pct() {
    assert_eq!(adjust_interval(ms(100), TARGET * 100), ms(80));
}

#[test]
fn adjust_interval_slows_down_when_under_target_capped_at_20pct() {
    assert_eq!(adjust_interval(ms(100), 0), ms(120));
    assert_eq!(adjust_interval(ms(100), 1), ms(120));
}

#[test]
fn adjust_interval_takes_ratio_when_inside_20pct_band() {
    let i = Duration::from_millis(110);
    let count = TARGET + TARGET / 10;
    let next = adjust_interval(i.as_nanos() as u64, count);
    let expected = i.mul_f64(TARGET as f64 / count as f64);
    assert_eq!(next, expected.as_nanos() as u64);
}

#[test]
fn adjust_interval_clamps_to_min_floor() {
    let next = adjust_interval(STREAM_MIN_INTERVAL, TARGET * 100);
    assert_eq!(next, STREAM_MIN_INTERVAL);
}

#[test]
fn adjust_interval_escapes_zero_when_batches_undersized() {
    assert_eq!(adjust_interval(0, 1), 1_000);
}

#[test]
fn adjust_interval_clamps_to_max_ceiling() {
    assert_eq!(adjust_interval(STREAM_MAX_INTERVAL, 0), STREAM_MAX_INTERVAL);
}

#[test]
fn adjust_interval_reaches_min_in_bounded_steps_under_overload() {
    let mut i = ms(50);
    let mut steps = 0;
    while i > STREAM_MIN_INTERVAL && steps < 1000 {
        i = adjust_interval(i, TARGET * 1000);
        steps += 1;
    }
    assert_eq!(i, STREAM_MIN_INTERVAL);
    assert!(steps < 100, "took {steps} steps to reach floor");
}

fn synth_span(id: u64, parent_id: Option<u64>) -> SpanRecord {
    SpanRecord {
        id,
        parent_id,
        metadata: Metadata {
            name: "sampling_test".to_string(),
            target: "sampling::test".to_string(),
            level: WireLevel::Info,
        },
        fields: Vec::new(),
        events: Vec::new(),
        opened_at: 1,
        closed_at: Some(2),
    }
}

fn named_span(id: u64, parent_id: Option<u64>, name: &str, level: WireLevel) -> SpanRecord {
    let mut s = synth_span(id, parent_id);
    s.metadata.name = name.to_string();
    s.metadata.level = level;
    s
}

#[test]
fn sampling_passes_rate_one_short_circuits_true() {
    let mut families: SortedMap<u64, u64> = SortedMap::new();
    for id in [0u64, 1, 17, u64::MAX, 0x9E37_79B9_7F4A_7C15] {
        assert!(sampling_passes(&synth_span(id, None), double(1.0), &mut families));
    }
}

#[test]
fn sampling_passes_rate_zero_short_circuits_false() {
    let mut families: SortedMap<u64, u64> = SortedMap::new();
    for id in [0u64, 1, 17, u64::MAX] {
        assert!(!sampling_passes(&synth_span(id, None), double(0.0), &mut families));
    }
}

#[test]
fn sampling_passes_is_deterministic_per_root_id() {
    let mut families: SortedMap<u64, u64> = SortedMap::new();
    for id in 1u64..=20 {
        let r = synth_span(id, None);
        let first = sampling_passes(&r, double(0.5), &mut families);
        for _ in 0..3 {
            assert_eq!(sampling_passes(&r, double(0.5), &mut families), first, "id={id}");
        }
    }
}

#[test]
fn sampling_passes_children_inherit_parents_root_id_bucket() {
    let mut families: SortedMap<u64, u64> = SortedMap::new();
    let root = synth_span(7, None);
    let want = sampling_passes(&root, double(0.5), &mut families);
    for child_id in [100u64, 200, 300, u64::MAX] {
        let child = synth_span(child_id, Some(7));
        assert_eq!(sampling_passes(&child, double(0.5), &mut families), want);
    }
}

#[test]
fn sampling_passes_partitions_population_near_target_rate() {
    let mut families: SortedMap<u64, u64> = SortedMap::new();
    let rate = 0.3;
    let n = 5_000u64;
    let mut passed = 0usize;
    for id in 1..=n {
        if sampling_passes(&synth_span(id, None), double(rate), &mut families) {
            passed += 1;
        }
    }
    let frac = passed as f64 / n as f64;
    assert!((frac - rate).abs() < 0.03, "frac={frac} rate={rate}");
}

#[test]
fn whole_subtrees_are_sampled_with_their_root() {
    for root in 1u64..=64 {
        let mut families: SortedMap<u64, u64> = SortedMap::new();
        let want = sampling_passes(&synth_span(root, None), double(0.5), &mut families);
        for (id, parent) in [(100u64, root), (200, 100), (300, 200), (301, 200), (400, 301)] {
            let span = synth_span(id, Some(parent));
            assert_eq!(sampling_passes(&span, double(0.5), &mut families), want, "{root} {id}");
        }
    }
    // The same through a connection, where some of the line is below the level.
    for root in 1u64..=16 {
        let mut families: SortedMap<u64, u64> = SortedMap::new();
        let want = sampling_passes(&synth_span(root, None), double(0.5), &mut families);
        let mut connection = ConnectionState::new();
        connection.state.sampling_rate = double(0.5);
        connection.state.min_level = Some(WireLevel::Info);
        assert!(!connection.vet(&named_span(root, None, "r", WireLevel::Debug)));
        assert!(!connection.vet(&named_span(100, Some(root), "c", WireLevel::Debug)));
        assert_eq!(connection.vet(&named_span(200, Some(100), "g", WireLevel::Info)), want);
    }
}

#[test]
fn whole_subtrees_are_filtered_with_their_root() {
    let mut connection = ConnectionState::new();
    connection.state.min_level = Some(WireLevel::Info);
    connection.state.root_filter = Some("alpha".to_string());
    // The root is below the level; its descendants pass all the same.
    assert!(!connection.vet(&named_span(1, None, "alpha", WireLevel::Debug)));
    assert!(!connection.vet(&named_span(2, Some(1), "quiet", WireLevel::Trace)));
    assert!(connection.vet(&named_span(3, Some(2), "loud", WireLevel::Warn)));
    assert!(!connection.vet(&named_span(4, None, "beta", WireLevel::Warn)));
    assert!(!connection.vet(&named_span(5, Some(4), "alpha", WireLevel::Warn)));
}

#[test]
fn sampling_compares_in_double_precision() {
    let mut families: SortedMap<u64, u64> = SortedMap::new();
    for id in 1u64..=2_000 {
        let mut h = id.wrapping_mul(0x9E37_79B9_7F4A_7C15);
        h ^= h >> 33;
        h = h.wrapping_mul(0xC2B2_AE3D_27D4_EB4F);
        h ^= h >> 29;
        for rate in [1e-300, 5e-17, 0.1, 0.25, 1.0 / 3.0, 0.5, 0.999_999_999_999_999_9] {
            let want = (h as f64) / (u64::MAX as f64) < rate;
            let got = sampling_passes(&synth_span(id, None), double(rate), &mut families);
            assert_eq!(got, want, "id={id}");
        }
    }
}

#[test]
fn filter_passes_descendant_inherits_root_decision_via_memo() {
    let filter = Some("alpha".to_string());
    let mut roots: SortedMap<u64, bool> = SortedMap::new();
    roots.insert(42, false);
    let child = synth_span(43, Some(42));
    assert!(!filter_passes(&child, &filter, &mut roots));
    assert_eq!(roots.get(&43).copied(), Some(false));
}

#[test]
fn filter_passes_root_caches_match_in_memo() {
    let filter = Some("sampling".to_string());
    let mut roots: SortedMap<u64, bool> = SortedMap::new();
    let root = synth_span(10, None);
    assert!(filter_passes(&root, &filter, &mut roots));
    assert_eq!(roots.get(&10).copied(), Some(true));
}

#[test]
fn filter_passes_empty_or_none_filter_accepts_everything() {
    let mut roots: SortedMap<u64, bool> = SortedMap::new();
    let s = synth_span(1, None);
    assert!(filter_passes(&s, &None, &mut roots));
    assert!(filter_passes(&s, &Some(String::new()), &mut roots));
    assert_eq!(roots.len(), 0);
}

/// A host with some closed spans and one connection.
struct Host {
    spans: Vec<SpanRecord>,
    bus: CacheLevelBroadcast,
    connection: ConnectionState,
}

impl Host {
    fn new(spans: Vec<SpanRecord>) -> Self {
        Host {
            spans,
            bus: CacheLevelBroadcast::new(WireLevelFilter::Trace, double(100.0)),
            connection: ConnectionState::new(),
        }
    }

    fn ask(&mut self, id: u64, body: RequestBody) -> RpcReply {
        let mut request = Request::new(body);
        request.set_message_id(id);
        self.connection.new_rpc(&mut self.bus, request).reply
    }

    fn answer(&mut self, id: u64, body: RequestBody) -> Response {
        match self.ask(id, body) {
            RpcReply::Immediate(r) => r,
            _ => panic!("expected an answer"),
        }
    }

    fn start(&mut self, id: u64) -> StreamTask {
        match self.ask(id, RequestBody::StartStream) {
            RpcReply::Stream(at) => StreamTask::new(at, TimeBase::now(0, 0)),
            _ => panic!("expected a stream"),
        }
    }

    /// What the stream sends when it looks next.
    fn look(&mut self, task: &mut StreamTask) -> Vec<Response> {
        match task.wants_page(&self.connection) {
            None => Vec::new(),
            Some((after, limit)) => {
                let page: Vec<SpanRecord> = self
                    .spans
                    .iter()
                    .filter(|s| s.id > after)
                    .take(limit)
                    .map(|s| s.duplicate())
                    .collect();
                task.take_page(&mut self.connection, &page)
            }
        }
    }
}

fn names(sent: &[Response]) -> Vec<String> {
    sent.iter()
        .map(|r| match &r.body {
            ResponseBody::Span(s) => s.name.clone(),
            _ => panic!("expected a span"),
        })
        .collect()
}

#[test]
fn start_stream_delivers_closed_spans() {
    let mut host = Host::new((10..13).map(|i| named_span(i, None, "test_a", WireLevel::Info)).collect());
    let mut task = host.start(1);
    let sent = host.look(&mut task);
    assert_eq!(names(&sent), vec!["test_a", "test_a", "test_a"]);
    for r in &sent {
        assert_eq!(r.message_id(), 1);
        match &r.body {
            ResponseBody::Span(s) => assert!(s.closed_at_ns.is_some()),
            _ => panic!("expected a span"),
        }
    }
    // Nothing is sent twice.
    assert!(host.look(&mut task).is_empty());
}

#[test]
fn stop_stream_halts_delivery() {
    let mut host = Host::new((10..15).map(|i| named_span(i, None, "test_b", WireLevel::Info)).collect());
    let mut task = host.start(1);
    let ack = host.answer(2, RequestBody::StopStream);
    assert!(matches!(ack.body, ResponseBody::Ack));
    assert!(host.look(&mut task).is_empty());
}

#[test]
fn set_level_filters_below_threshold() {
    let mut host = Host::new(vec![
        named_span(10, None, "info_span", WireLevel::Info),
        named_span(11, None, "debug_span", WireLevel::Debug),
    ]);
    let ack = host.answer(1, RequestBody::SetLevel(WireLevel::Info));
    assert!(matches!(ack.body, ResponseBody::Ack));
    let mut task = host.start(2);
    assert_eq!(names(&host.look(&mut task)), vec!["info_span"]);
}

#[test]
fn set_sampling_rate_zero_drops_all() {
    let mut host = Host::new((10..15).map(|i| named_span(i, None, "sampled", WireLevel::Info)).collect());
    host.answer(1, RequestBody::SetSamplingRate(asked(0.0)));
    let mut task = host.start(2);
    assert!(host.look(&mut task).is_empty());
}

#[test]
fn set_filter_matches_root_and_inherits_to_children() {
    let mut host = Host::new(vec![
        named_span(10, None, "alpha", WireLevel::Info),
        named_span(11, Some(10), "alpha_child", WireLevel::Info),
        named_span(12, None, "beta", WireLevel::Info),
        named_span(13, Some(12), "beta_child", WireLevel::Info),
    ]);
    host.answer(1, RequestBody::SetFilter(Some("alpha".to_string())));
    let mut task = host.start(2);
    assert_eq!(names(&host.look(&mut task)), vec!["alpha", "alpha_child"]);
}

#[test]
fn set_cache_level_keeps_stream_open() {
    let mut host = Host::new(vec![named_span(10, None, "pre_level", WireLevel::Info)]);
    let mut task = host.start(100);
    let opening = task.opening(host.bus.level, host.bus.chance);
    assert!(matches!(opening[0].body, ResponseBody::CacheLevel(WireLevelFilter::Trace)));
    assert!(matches!(opening[1].body, ResponseBody::CacheChance(p) if p == double(100.0)));
    let ack = host.answer(101, RequestBody::SetCacheLevel(WireLevelFilter::Off));
    assert!(matches!(ack.body, ResponseBody::Ack));
    assert_eq!(ack.message_id(), 101);
    let pushed = task.level_changed(host.bus.level);
    assert!(matches!(pushed.body, ResponseBody::CacheLevel(WireLevelFilter::Off)));
    assert_eq!(pushed.message_id(), 100);
    assert_eq!(host.look(&mut task).len(), 1);
}

#[test]
fn level_resets_to_off_when_last_console_disconnects() {
    let mut bus = CacheLevelBroadcast::new(WireLevelFilter::Info, double(30.0));
    let mut a = ConnectionState::new();
    let mut b = ConnectionState::new();
    let start = || Request::new(RequestBody::StartStream);
    a.new_rpc(&mut bus, start());
    a.new_rpc(&mut bus, start());
    b.new_rpc(&mut bus, start());
    assert_eq!(bus.active_streams, 2);
    assert!(!a.disconnect(&mut bus));
    assert_eq!(bus.level, WireLevelFilter::Info);
    assert!(b.disconnect(&mut bus), "nobody looks any more");
    assert_eq!(bus.level, WireLevelFilter::Off);
    assert_eq!(bus.chance, double(100.0));
    assert!(!b.disconnect(&mut bus));
    assert_eq!(bus.active_streams, 0);
}

#[test]
fn set_sampling_rate_rejects_out_of_range() {
    let mut host = Host::new(vec![]);
    for bad in [1.5_f64, -0.1, f64::NAN] {
        let resp = host.answer(9, RequestBody::SetSamplingRate(asked(bad)));
        match resp.body {
            ResponseBody::Error(msg) => {
                assert!(msg.contains("sampling rate"), "got: {msg}");
                assert_eq!(msg, format!("sampling rate {bad} out of range [0.0, 1.0]"));
            }
            _ => panic!("expected an error"),
        }
        assert_eq!(host.connection.state.sampling_rate, double(1.0));
    }
    for good in [-0.0, 0.25] {
        let ok = host.answer(11, RequestBody::SetSamplingRate(asked(good)));
        assert!(matches!(ok.body, ResponseBody::Ack));
        assert_eq!(host.connection.state.sampling_rate, double(good));
    }
    assert_eq!(refuse_rate("-0.1"), "sampling rate -0.1 out of range [0.0, 1.0]");
    let ok = host.answer(10, RequestBody::SetSamplingRate(asked(1.0)));
    assert!(matches!(ok.body, ResponseBody::Ack));
}

#[test]
fn switching_off_forgets_closed_spans() {
    let mut bus = CacheLevelBroadcast::new(WireLevelFilter::Info, double(100.0));
    let mut c = ConnectionState::new();
    let off = c.new_rpc(&mut bus, Request::new(RequestBody::SetCacheLevel(WireLevelFilter::Off)));
    assert!(off.clear);
    let on = c.new_rpc(&mut bus, Request::new(RequestBody::SetCacheLevel(WireLevelFilter::Info)));
    assert!(!on.clear);
    let noop = c.new_rpc(&mut bus, Request::new(RequestBody::Noop));
    assert!(matches!(noop.reply, RpcReply::Silent));
}

#[test]
fn chances_are_held_at_a_hundred() {
    let mut host = Host::new(vec![]);
    host.answer(1, RequestBody::SetCacheChance(double(250.0)));
    assert_eq!(host.bus.chance, double(100.0));
    host.answer(2, RequestBody::SetCacheChance(double(12.5)));
    assert_eq!(host.bus.chance, double(12.5));
}

#[test]
fn roots_match_by_name_or_field() {
    let mut s = synth_span(1, None);
    s.fields.push(("user".to_string(), FieldValue::U64(4711)));
    assert!(root_matches(&s, "ling_te"));
    assert!(root_matches(&s, "71"));
    assert!(!root_matches(&s, "user"));
    assert!(level_at_least(WireLevel::Error, WireLevel::Warn));
    assert!(!level_at_least(WireLevel::Trace, WireLevel::Debug));
}

#[test]
fn the_wait_follows_what_is_found() {
    let mut host = Host::new((1..200).map(|i| named_span(i, None, "s", WireLevel::Info)).collect());
    let mut task = host.start(1);
    assert_eq!(task.wait(), Wait::Sleep(50_000_000));
    assert_eq!(task.wants_page(&host.connection), Some((0, STREAM_BATCH)));
    host.look(&mut task);
    assert_eq!(task.wait(), Wait::Sleep(40_000_000));
    assert_eq!(task.wants_page(&host.connection), Some((199, STREAM_BATCH)));
    host.look(&mut task);
    assert_eq!(task.wait(), Wait::Sleep(48_000_000));
}

#[test]
fn batches_may_be_cut_anywhere() {
    let spans = || -> Vec<_> {
        (1..=6).map(|id| synth_span(id, if id > 1 { Some(id - 1) } else { None })).collect()
    };
    let base = TimeBase::now(0, 0);
    let ids = |sent: Vec<tracing_console::protocol::Response>| -> Vec<u64> {
        sent.iter()
            .map(|r| match &r.body {
                ResponseBody::Span(w) => w.id,
                _ => panic!("expected a span"),
            })
            .collect()
    };
    let mut whole = Host::new(vec![]);
    let all = ids(whole.connection.stream_batch(&spans(), base, 1));
    assert_eq!(all, vec![1, 2, 3, 4, 5, 6]);
    for cut in 0..=6 {
        let mut host = Host::new(vec![]);
        let mut first = spans();
        let second = first.split_off(cut);
        let mut sent = ids(host.connection.stream_batch(&first, base, 1));
        sent.append(&mut ids(host.connection.stream_batch(&second, base, 1)));
        assert_eq!(sent, all);
    }
}

#[test]
fn streamed_spans_carry_their_events_and_times() {
    let mut s = synth_span(5, Some(3));
    s.opened_at = 1_000;
    s.closed_at = Some(1_500);
    s.fields.push(("n".to_string(), FieldValue::I64(-1)));
    s.events.push(EventRecord {
        metadata: Some(Metadata {
            name: "ev".to_string(),
            target: "t".to_string(),
            level: WireLevel::Warn,
        }),
        fields: vec![("k".to_string(), FieldValue::Bool(true))],
        recorded_at: Some(1_200),
        home: None,
    });
    let mut host = Host::new(vec![]);
    let sent = host.connection.stream_batch(&vec![s], TimeBase::now(500, 7_000), 42);
    assert_eq!(sent[0].message_id(), 42);
    match &sent[0].body {
        ResponseBody::Span(w) => {
            assert_eq!((w.id, w.parent_id), (5, Some(3)));
            assert_eq!(w.opened_at_ns, 7_500);
            assert_eq!(w.closed_at_ns, Some(8_000));
            assert_eq!(w.fields[0].0, "n");
            assert_eq!(w.fields[0].1.to_string_value(), "-1");
            assert_eq!(w.events[0].recorded_at_ns, 7_700);
            assert_eq!(w.events[0].level, WireLevel::Warn);
        }
        _ => panic!("expected a span"),
    }
}

#[test]
fn decisions_are_forgotten_oldest_first() {
    let filter = Some("root".to_string());
    let mut roots: SortedMap<u64, bool> = SortedMap::new();
    let mut families: SortedMap<u64, u64> = SortedMap::new();
    let beyond = MEMO_BUDGET as u64 + 3;
    for id in 1..=beyond {
        let root = named_span(id, None, "root", WireLevel::Info);
        assert!(filter_passes(&root, &filter, &mut roots));
        sampling_passes(&root, double(0.5), &mut families);
    }
    assert_eq!(roots.len(), MEMO_BUDGET);
    assert_eq!(families.len(), MEMO_BUDGET);
    assert!(roots.get(&3).is_none() && roots.get(&4).is_some());
    let late = |parent: u64| named_span(beyond + 1, Some(parent), "child", WireLevel::Info);
    assert!(!filter_passes(&late(3), &filter, &mut roots));
    assert!(filter_passes(&late(beyond), &filter, &mut roots));
}
