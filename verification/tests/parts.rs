//! Laws and formulas of the parts, each on some values.

use tracing_console::aggregate::state::Aggregator;
use tracing_console::aggregate::util::{candidate_split_keys_for, fmt_ns};
use tracing_console::cache::ident::{disabled_id, Lanes, DISABLED, SLAB_OFFSET};
use tracing_console::cache::predicate::{filter_to_u8, u8_to_filter};
use tracing_console::cache::record::{field_get, set_field, FieldList, FieldValue};
use tracing_console::cache::thread::ThreadState;
use tracing_console::model::console::{level_options, Model, ViewMode};
use tracing_console::model::explore::{
    distinguishing_fields, find_root_id, latency_ns, span_matches_query, visible_trace_rows,
    SortDirection, TraceRow,
};
use tracing_console::model::graph::{parse_agg_input, parse_lookback_input, GraphState};
use tracing_console::model::input::{parse_chance_input, parse_window_input};
use tracing_console::model::series::{percentile_index, AggMode, GraphSeriesStore};
use tracing_console::model::update::Update;
use tracing_console::number::{read_number, read_signed_number};
use tracing_console::pattern::Double;
use tracing_console::protocol::{
    WireEvent, WireFieldValue, WireLevel, WireLevelFilter, WireSpan,
};
use tracing_console::sorted::SortedSet;
use tracing_console::wire::TimeBase;

const ALL_FILTERS: [WireLevelFilter; 6] = [
    WireLevelFilter::Off,
    WireLevelFilter::Error,
    WireLevelFilter::Warn,
    WireLevelFilter::Info,
    WireLevelFilter::Debug,
    WireLevelFilter::Trace,
];

fn span(id: u64, parent_id: Option<u64>, name: &str, opened: u64, closed: u64) -> WireSpan {
    WireSpan {
        id,
        parent_id,
        name: name.to_string(),
        target: "test".to_string(),
        level: WireLevel::Info,
        fields: Vec::new(),
        events: Vec::new(),
        opened_at_ns: opened,
        closed_at_ns: Some(closed),
    }
}

fn pair(k: &str, v: &str) -> (String, String) {
    (k.to_string(), v.to_string())
}

fn double(x: f64) -> Double {
    Double { bits: x.to_bits() }
}

#[test]
fn ids_tell_lane_and_slot() {
    let lanes = Lanes::new(16);
    for shard in 0..lanes.count() {
        for slot in [0usize, 1, 1000] {
            let id = lanes.encode_tracing_id(shard, slot);
            assert_eq!(lanes.decode_tracing_id(id), Some((shard, slot as u64)));
        }
    }
    assert_eq!(lanes.encode_tracing_id(0, 0), SLAB_OFFSET);
    assert_eq!(lanes.decode_tracing_id(DISABLED), None);
    assert_eq!(lanes.decode_tracing_id(0), None);
    assert_eq!(lanes.pick_shard(35), 3);
    assert_eq!(disabled_id().into_u64(), DISABLED);
}

#[test]
fn filters_are_kept_as_numbers() {
    for f in ALL_FILTERS {
        assert_eq!(u8_to_filter(filter_to_u8(f)), f);
        assert_eq!(WireLevelFilter::from_tracing(f.to_tracing()), f);
    }
    assert_eq!(u8_to_filter(77), WireLevelFilter::Trace);
    for l in [
        WireLevel::Error,
        WireLevel::Warn,
        WireLevel::Info,
        WireLevel::Debug,
        WireLevel::Trace,
    ] {
        assert_eq!(WireLevel::from_tracing(&l.to_tracing()), l);
    }
    assert_eq!(WireLevel::from_tracing(&tracing::Level::WARN), WireLevel::Warn);
    assert_eq!(level_options().len(), 4);
}

#[test]
fn threads_take_ids_from_batches_of_their_own() {
    let mut next_key: u64 = 0;
    let mut a = ThreadState::register(&mut next_key);
    let mut b = ThreadState::register(&mut next_key);
    assert_eq!((a.shard_key(), b.shard_key()), (0, 1));
    let mut high_water: u64 = 1024;
    let first = a.allocate_actual_id(&mut high_water);
    let other = b.allocate_actual_id(&mut high_water);
    let second = a.allocate_actual_id(&mut high_water);
    assert_eq!(second, first + 1);
    assert!(other > second);
}

#[test]
fn a_set_field_is_read_back() {
    let mut fields: FieldList = Vec::new();
    set_field(&mut fields, "a", FieldValue::U64(1));
    set_field(&mut fields, "b", FieldValue::U64(2));
    set_field(&mut fields, "a", FieldValue::Bool(true));
    assert_eq!(fields.len(), 2);
    let shown = |name: &str| field_get(&fields, name).map(|v| v.to_display_string().to_string());
    assert_eq!(shown("a").as_deref(), Some("true"));
    assert_eq!(shown("b").as_deref(), Some("2"));
    assert_eq!(shown("c"), None);
}

#[test]
fn numbers_are_read_and_written() {
    let read = |s: &str| read_number(&s.chars().collect()).map(|n| f64::from_bits(n.bits));
    assert_eq!(read("42.5"), Some(42.5));
    assert_eq!(read(".5"), Some(0.5));
    assert_eq!(read("5."), Some(5.0));
    assert_eq!(read("0.0000000005"), Some(0.000_000_000_5));
    assert_eq!(read("."), None);
    assert_eq!(read(""), None);
    assert_eq!(read("1.2.3"), None);
    assert_eq!(read("-1"), None);
    assert_eq!(parse_chance_input("100"), Some(double(100.0)));
    assert!(parse_chance_input("100.1").is_none());
    assert_eq!(parse_window_input("0.25"), Some(double(0.25)));
    assert!(parse_window_input("0").is_none());
}

#[test]
fn numbers_are_read_as_the_nearest_doubles() {
    let read = |s: &str| read_signed_number(&s.chars().collect());
    for text in [
        "1e2", "+5", "-0", "-0.0e7", "-1", "1.5e-3", "2.5E+1", "12.34e1", "0.00012e4", "1e-12",
        "1e400", "0e999999999999999999999999999999999999", "1e-99999999999999999999", "e5", "1e",
        "1e+", "1e5.0", "+", "-", "+-1", "1e2e3", ".e1", ".5e1", "5.e0", " 1", "1_000", "007",
        "17976931348623157e292", "17976931348623159e292", "0.1", "0.2", "0.3", "123456.789",
        "9007199254740993", "9007199254740991.5", "4503599627370496.5", "4503599627370497.5",
        "2.2250738585072011e-308", "2.2250738585072014e-308", "4.9e-324", "3e-324", "2e-324",
        "-2e-324", "-3e-324", "1e-399", "1e-400", "1e-401", "1e308", "1.8e308", "1e399",
        "179769313486231580793728971405303415079934132710037826936173778980444968292764750946649017977587207096330286416692887910946555547851940402630657488671505820681908902000708383676273854845817711531764475730270069855571366959622842914819860834936475292719074168444365510704342711559699508093042880177904174497791",
        "179769313486231580793728971405303415079934132710037826936173778980444968292764750946649017977587207096330286416692887910946555547851940402630657488671505820681908902000708383676273854845817711531764475730270069855571366959622842914819860834936475292719074168444365510704342711559699508093042880177904174497792",
        "100.00000000000000001",
        "100.00000000000000710542735760100185871124267578125",
        "100.000000000000007105427357601001858711242675781250000",
        "100.000000000000007105427357601001858711242675781250001",
        "100.0000000000001",
        "99.99999999999999289457264239899814128875732421875",
        "99.99999999999999289457264239899814128875732421874",
        "0.1000000000000000000000001e3",
    ] {
        let want = text.parse::<f64>().ok().map(f64::to_bits);
        assert_eq!(read(text).map(|n| n.bits), want, "{text}");
        let chance = text.parse::<f64>().ok().filter(|v| (0.0..=100.0).contains(v));
        assert_eq!(parse_chance_input(text), chance.map(double), "{text}");
        let window = text.parse::<f64>().ok().filter(|v| v.is_finite() && *v > 0.0);
        assert_eq!(parse_window_input(text), window.map(double), "{text}");
        let minutes = format!("{text}m");
        let lookback = window.map(|v| double(v * 60.0));
        if !text.starts_with(' ') {
            assert_eq!(parse_lookback_input(&minutes), lookback, "{text}");
        }
    }
    // Numbers of a kind that nobody chose.
    let mut seed: u64 = 7;
    for _ in 0..40 {
        seed = seed.wrapping_mul(6_364_136_223_846_793_005).wrapping_add(1_442_695_040_888_963_407);
        let v = f64::from_bits(seed & 0x7FEF_FFFF_FFFF_FFFF);
        let text = format!("{v:e}");
        assert_eq!(read(&text).map(|n| n.bits), Some(v.to_bits()), "{text}");
    }
    assert_eq!(parse_agg_input("p99.9999999999999999999"), Some(AggMode::Max));
    assert_eq!(parse_agg_input("p99.999999999999"), Some(AggMode::Percentile(double(99.999999999999))));
    assert_eq!(parse_agg_input("p0.000"), Some(AggMode::Min));
}

#[test]
fn windows_are_rounded_to_nanoseconds() {
    for secs in [1.0, 0.25, 1e-3, 0.1, 1.5e-9, 2.5e-9, 0.000_000_123_456_7, 3600.5, 1e10, 1e300] {
        let store = GraphSeriesStore::new(double(secs));
        let ns = (secs * 1e9).round() as u64;
        assert_eq!(store.window_secs(), double(ns as f64 / 1e9), "{secs}");
    }
    for none in [0.0, -1.0, f64::NAN, f64::INFINITY] {
        assert_eq!(GraphSeriesStore::new(double(none)).window_secs(), double(1.0), "{none}");
    }
    // Less than half a nanosecond still leaves a bin.
    let mut store = GraphSeriesStore::new(double(1e-12));
    store.record(vec![], 5, 1);
    assert_eq!(store.window_secs(), double(1e-9));
    assert_eq!(store.series_summary(AggMode::Max)[0].count, 1);
}

#[test]
fn the_reach_is_compared_exactly() {
    let mut store = GraphSeriesStore::new(double(0.1));
    store.record(vec![], 100_000_000, 1);
    store.record(vec![], 400_000_000, 2);
    let points = |reach: f64| store.project(AggMode::Max, double(reach))[0].points.len();
    assert_eq!(points(0.3), 1);
    assert_eq!(points(0.1 + 0.2), 2);
    assert_eq!(points(f64::INFINITY), 2);
    assert_eq!(points(1e308), 2);
    assert_eq!(points(1e-300), 1);
    assert_eq!(points(f64::NAN), 0);
}

#[test]
fn the_first_bin_is_centered_even_at_the_clock_origin() {
    let mut store = GraphSeriesStore::new(double(1.0));
    store.record(vec![], 100, 100);
    store.record(vec![], 1_000_000_500, 500);
    let drawn = store.project(AggMode::Avg, double(60.0));
    assert_eq!(drawn.len(), 1);
    assert_eq!(drawn[0].points, vec![(1, 100), (0, 500)]);
    let summary = store.series_summary(AggMode::Max);
    assert_eq!(summary[0].count, 2);
    assert_eq!(summary[0].avg_ns, 300);
}

#[test]
fn bins_beyond_the_reach_are_clipped() {
    let mut store = GraphSeriesStore::new(double(1.0));
    store.record(vec![], 1_000_000_000, 7);
    store.record(vec![], 3_000_000_000, 9);
    let near = store.project(AggMode::Avg, double(1.5));
    assert_eq!(near.len(), 1);
    assert!(near[0].key.is_empty());
    assert_eq!(near[0].points, vec![(0, 9)]);
    let far = store.project(AggMode::Avg, double(2.0));
    assert_eq!(far[0].points, vec![(2, 7), (0, 9)]);
}

#[test]
fn times_are_rounded_as_doubles_are() {
    for ns in [1_050u64, 1_149, 1_150, 2_250_000, 123_456_789, 9_999_949_999, u64::MAX] {
        let want = if ns >= 1_000_000_000 {
            format!("{:.1}s", ns as f64 / 1e9)
        } else if ns >= 1_000_000 {
            format!("{:.1}ms", ns as f64 / 1e6)
        } else {
            format!("{:.1}µs", ns as f64 / 1e3)
        };
        assert_eq!(fmt_ns(ns), want);
    }
}

#[test]
fn percentiles_pick_the_nearest_sample() {
    let p = |x: u64| double(x as f64);
    assert_eq!(percentile_index(p(50), 11), 5);
    assert_eq!(percentile_index(p(0), 11), 0);
    assert_eq!(percentile_index(p(100), 11), 10);
    assert_eq!(percentile_index(p(99), 1), 0);
    for x in [f64::NAN, -1.0, -0.0, f64::NEG_INFINITY] {
        assert_eq!(percentile_index(double(x), 11), 0, "{x}");
    }
    assert_eq!(percentile_index(double(f64::INFINITY), 11), 10);
    for n in [2usize, 3, 7, 100, 4096] {
        for x in [1e-320, 0.1, 12.5, 33.3, 49.999_999_999_999_99, 50.0, 75.0, 99.9, 99.99, 150.0] {
            let want = (((x / 100.0) * (n as f64 - 1.0)).round() as usize).min(n - 1);
            assert_eq!(percentile_index(double(x), n), want, "p{x} of {n}");
        }
    }
}

#[test]
fn series_are_projected_onto_the_time_axis() {
    let mut store = GraphSeriesStore::new(double(1.0));
    store.record(vec![pair("k", "a")], 1_000_000_000, 10);
    store.record(vec![pair("k", "a")], 1_400_000_000, 30);
    store.record(vec![pair("k", "a")], 3_100_000_000, 7);
    let drawn = store.project(AggMode::Avg, double(60.0));
    assert_eq!(drawn.len(), 1);
    assert_eq!(drawn[0].key, vec![pair("k", "a")]);
    let values: Vec<u64> = drawn[0].points.iter().map(|p| p.1).collect();
    assert_eq!(values, vec![20, 7]);
    let recent = store.project(AggMode::Avg, double(1.0));
    assert_eq!(recent[0].points.len(), 1);
    store.wipe();
    assert!(store.project(AggMode::Max, double(1.0)).is_empty());
}

#[test]
fn colors_follow_stack_and_key() {
    let a = GraphState::new(vec!["req".to_string()]);
    let b = GraphState::new(vec!["req".to_string()]);
    let other = GraphState::new(vec!["job".to_string()]);
    let key = vec![pair("api", "fetch")];
    assert_eq!(a.color_index_of(&key), b.color_index_of(&key));
    assert_ne!(a.color_index_of(&key), other.color_index_of(&key));
    assert_ne!(a.color_index_of(&key), a.color_index_of(&vec![pair("api", "post")]));
}

#[test]
fn wall_times_keep_the_order() {
    let base = TimeBase::now(1_000, 50_000);
    assert_eq!(base.ns(1_500), 50_500);
    assert_eq!(base.ns(500), 50_000);
    assert!(base.ns(2_000) <= base.ns(2_001));
    assert_eq!(TimeBase::now(0, -5).ns(2), 0);
}

#[test]
fn the_window_and_what_waits_stay_bounded() {
    let mut a = Aggregator::new(4);
    for i in 0..50u64 {
        let parent = if i % 3 == 0 { None } else { Some(1_000 + i) };
        a.absorb(span(i + 1, parent, "s", 0, 1));
        assert!(a.len() <= 4);
        assert!(a.pending_len() <= 4);
    }
    assert_eq!(a.history_budget(), 4);
}

#[test]
fn statistics_follow_the_window() {
    let mut a = Aggregator::new(8);
    a.absorb(span(1, None, "root", 0, 100));
    a.absorb(span(2, Some(1), "child", 10, 40));
    assert_eq!(a.child_sum_for(1), 30);
    assert_eq!(a.resolved_stack(2).unwrap().len(), 2);
    assert_eq!(a.span_by_id(2).unwrap().name, "child");
    let keys: SortedSet<String> = SortedSet::new();
    assert!(a.collect_splits_for(2, &keys).is_empty());
    assert!(a.split_keys().len() == 0);
}

#[test]
fn candidates_are_the_fields_of_a_stack() {
    let mut a = Aggregator::new(8);
    let mut s = span(1, None, "req", 0, 1);
    s.fields.push(("user".to_string(), WireFieldValue::U64(1)));
    s.fields.push(("api".to_string(), WireFieldValue::Bool(true)));
    a.absorb(s);
    a.absorb(span(2, None, "job", 0, 1));
    let keys = candidate_split_keys_for(&a, &vec!["req".to_string()]);
    assert_eq!(keys, vec!["api", "user"]);
    assert!(candidate_split_keys_for(&a, &vec!["job".to_string()]).is_empty());
}

#[test]
fn searching_looks_at_names_fields_and_events() {
    let mut s = span(1, None, "Request", 5, 25);
    s.fields.push(("path".to_string(), WireFieldValue::Str("/Users".to_string())));
    s.events.push(WireEvent {
        name: "ev".to_string(),
        level: WireLevel::Info,
        fields: vec![("note".to_string(), WireFieldValue::I64(-3))],
        recorded_at_ns: 7,
    });
    assert!(span_matches_query(&s, ""));
    assert!(span_matches_query(&s, "quest"));
    assert!(span_matches_query(&s, "/users"));
    assert!(span_matches_query(&s, "-3"));
    assert!(!span_matches_query(&s, "absent"));
    assert_eq!(latency_ns(&s), 20);
    let mut t = span(2, None, "Request", 0, 1);
    t.fields.push(("path".to_string(), WireFieldValue::Str("/other".to_string())));
    assert_eq!(distinguishing_fields(&vec![&s, &t]), vec!["path"]);
    assert_eq!(SortDirection::Asc.flip(), SortDirection::Desc);
}

#[test]
fn a_trace_lists_spans_and_events_in_time() {
    let mut m = Model::new(16);
    let mut root = span(10, None, "root", 0, 100);
    root.events.push(WireEvent {
        name: "early".to_string(),
        level: WireLevel::Info,
        fields: Vec::new(),
        recorded_at_ns: 5,
    });
    m.apply(Update::SpanReceived(root), 0);
    m.apply(Update::SpanReceived(span(11, Some(10), "child", 10, 50)), 0);
    assert_eq!(find_root_id(&m, 11), Some(10));
    assert_eq!(find_root_id(&m, 99), None);
    m.apply(Update::EnterExplore, 0);
    m.apply(Update::ExploreOpenTrace, 0);
    match &m.view {
        ViewMode::TraceDetail(td) => {
            let rows = visible_trace_rows(&m, td);
            assert_eq!(rows.len(), 3);
            assert!(matches!(rows[0], TraceRow::Span { .. }));
            assert!(matches!(rows[1], TraceRow::Event { .. }));
            assert!(matches!(rows[2], TraceRow::Span { .. }));
        }
        _ => panic!("expected a trace"),
    }
}

#[test]
fn quitting_can_be_dismissed_in_time() {
    let mut m = Model::new(4);
    m.quit_confirm_deadline = Some(100);
    m.expire_quit_confirm_if_due(99);
    assert_eq!(m.quit_confirm_deadline, Some(100));
    m.expire_quit_confirm_if_due(100);
    assert_eq!(m.quit_confirm_deadline, None);
}

#[test]
fn a_span_may_come_under_an_id_that_is_there() {
    let mut agg = Aggregator::new(4);
    agg.absorb(span(1, None, "a", 0, 100));
    agg.absorb(span(2, Some(1), "b", 0, 30));
    assert_eq!(agg.absorb(span(1, None, "a", 0, 60)), vec![1]);
    assert_eq!(agg.len(), 3);
    let rows = agg.rows();
    assert_eq!(rows[0].0.stack, vec!["a".to_string()]);
    assert_eq!(rows[0].1.count, 2);
    // The newest holder of the id is the one that is found.
    assert_eq!(agg.span_by_id(1).unwrap().closed_at_ns, Some(60));
    assert_eq!(agg.child_sum_for(1), 30);
    agg.absorb(span(3, Some(1), "b", 0, 10));
    assert_eq!(agg.child_sum_for(1), 40);
    // Both leave in their turn.
    agg.absorb(span(4, None, "c", 0, 1));
    assert_eq!(agg.len(), 4);
    assert_eq!(agg.rows()[0].1.count, 1);
    assert!(agg.span_by_id(1).is_some());
    for id in 5..=6 {
        agg.absorb(span(id, None, "c", 0, 1));
    }
    assert!(agg.span_by_id(1).is_none());
    assert!(agg.rows().iter().all(|r| r.0.stack[0] != "a" || r.0.stack.len() > 1));
}
