//! The table and the graph, one message after another.

use tracing_console::pattern::Double;
use tracing_console::model::console::{Focus, Model, ViewMode};
use tracing_console::model::graph::{GraphFocus, GraphState, Metric, SortColumn};
use tracing_console::model::series::AggMode;
use tracing_console::model::update::{Effect, Update};
use tracing_console::protocol::{WireFieldValue, WireLevel, WireLevelFilter, WireSpan};
use tracing_console::sorted::SortedSet;

const NOW: u64 = 1_000;

fn double(x: f64) -> Double {
    Double { bits: x.to_bits() }
}

fn secs(x: Double) -> f64 {
    f64::from_bits(x.bits)
}

fn span(id: u64, name: &str) -> WireSpan {
    span_with_parent(id, name, None)
}

fn span_with_parent(id: u64, name: &str, parent_id: Option<u64>) -> WireSpan {
    WireSpan {
        id,
        parent_id,
        name: name.into(),
        target: "test".into(),
        level: WireLevel::Info,
        fields: Vec::new(),
        events: vec![],
        opened_at_ns: 0,
        closed_at_ns: Some(1000),
    }
}

fn span_with_field(id: u64, name: &str, parent_id: Option<u64>, k: &str, v: &str) -> WireSpan {
    let mut s = span_with_parent(id, name, parent_id);
    s.fields.push((
        k.to_string(),
        WireFieldValue::Str(v.into()),
    ));
    s
}

#[test]
fn model_span_received_appears_as_root_row() {
    let mut m = Model::new(8);
    m.apply(Update::SpanReceived(span(10, "a")), NOW);
    let rows = m.visible_rows();
    assert_eq!(rows.len(), 1);
    assert_eq!(rows[0].key.stack, vec!["a"]);
    assert_eq!(rows[0].depth, 0);
    assert!(!rows[0].has_children);
}

#[test]
fn model_span_with_evicted_parent_is_dropped() {
    // history budget 1 → adding the child evicts the parent;
    // child should not render.
    let mut m = Model::new(1);
    m.apply(Update::SpanReceived(span(10, "parent")), NOW);
    m.apply(Update::SpanReceived(span_with_parent(
        11,
        "child",
        Some(10),
    )), NOW);
    let rows = m.visible_rows();
    // Parent was evicted, child has missing parent → both dropped.
    assert_eq!(rows.len(), 0);
}

#[test]
fn model_child_is_hidden_until_parent_is_expanded() {
    let mut m = Model::new(8);
    m.apply(Update::SpanReceived(span(10, "a")), NOW);
    m.apply(Update::SpanReceived(span_with_parent(11, "b", Some(10))), NOW);
    let rows = m.visible_rows();
    assert_eq!(rows.len(), 1);
    assert!(rows[0].has_children);

    m.apply(Update::ExpandSelected, NOW);
    let rows = m.visible_rows();
    assert_eq!(rows.len(), 2);
    assert_eq!(rows[1].key.stack, vec!["a".to_string(), "b".to_string()]);
}

#[test]
fn model_tab_toggles_focus_between_two_panes() {
    let mut m = Model::new(4);
    assert_eq!(m.focus, Focus::Stacks);
    m.apply(Update::SwitchFocus, NOW);
    assert_eq!(m.focus, Focus::Details);
    m.apply(Update::SwitchFocus, NOW);
    assert_eq!(m.focus, Focus::Stacks);
}

#[test]
fn model_request_cache_level_emits_effect_without_updating_state() {
    let mut m = Model::new(4);
    let effect = m.apply(Update::RequestCacheLevel(WireLevelFilter::Debug), NOW);
    assert_eq!(effect, Effect::RequestSetLevel(WireLevelFilter::Debug));
    // Local state is untouched — the server hasn't confirmed yet.
    assert!(m.cache_level.is_none());
    // Server confirms.
    m.apply(Update::CacheLevelReceived(WireLevelFilter::Debug), NOW);
    assert_eq!(m.cache_level, Some(WireLevelFilter::Debug));
}

#[test]
fn model_toggle_split_only_works_under_details_focus() {
    let mut m = Model::new(8);
    m.apply(Update::SpanReceived(span_with_field(
        10, "a", None, "api", "fetch",
    )), NOW);
    // Toggle while Stacks-focused: no-op.
    m.apply(Update::ToggleSplitSelected, NOW);
    assert!(m.split_keys().len() == 0);
    // Switch to Details, then toggle: api becomes a split key.
    m.apply(Update::SwitchFocus, NOW);
    m.apply(Update::ToggleSplitSelected, NOW);
    assert!(m.split_keys().contains(&"api".to_string()));
    // Toggle again removes.
    m.apply(Update::ToggleSplitSelected, NOW);
    assert!(m.split_keys().len() == 0);
}

#[test]
fn model_splits_separate_buckets() {
    let mut m = Model::new(16);
    m.apply(Update::SpanReceived(span_with_field(
        10, "req", None, "api", "fetch",
    )), NOW);
    m.apply(Update::SpanReceived(span_with_field(
        11, "req", None, "api", "update",
    )), NOW);
    // No splits yet: 2 spans bucket into one row.
    let rows = m.visible_rows();
    assert_eq!(rows.len(), 1);
    assert_eq!(rows[0].stats.count, 2);

    let mut sk = SortedSet::new();
    sk.insert("api".to_string());
    m.agg.set_split_keys(sk);
    let rows = m.visible_rows();
    assert_eq!(rows.len(), 2);
    assert!(rows.iter().all(|r| r.key.stack == vec!["req".to_string()]));
    let apis: Vec<&str> = rows.iter().map(|r| r.key.splits[0].1.as_str()).collect();
    assert!(apis.contains(&"fetch"));
    assert!(apis.contains(&"update"));
}

#[test]
fn model_split_inherits_from_ancestor() {
    let mut m = Model::new(16);
    m.apply(Update::SpanReceived(span_with_field(
        10, "req", None, "api", "fetch",
    )), NOW);
    m.apply(Update::SpanReceived(span_with_parent(
        11,
        "validate",
        Some(10),
    )), NOW);
    let mut sk = SortedSet::new();
    sk.insert("api".to_string());
    m.agg.set_split_keys(sk);
    let rows = m.visible_rows();
    // root + child = 1 row visible (root); expand and we should
    // see the child carry the same `api=fetch` split inherited
    // from its parent.
    assert_eq!(rows.len(), 1);
    m.apply(Update::ExpandSelected, NOW);
    let rows = m.visible_rows();
    assert_eq!(rows.len(), 2);
    assert_eq!(
        rows[1].key.stack,
        vec!["req".to_string(), "validate".to_string()]
    );
    assert_eq!(
        rows[1].key.splits,
        vec![("api".to_string(), "fetch".to_string())]
    );
}

#[test]
fn model_select_navigation_clamps() {
    let mut m = Model::new(8);
    m.apply(Update::SelectDown, NOW);
    assert_eq!(m.selected, 0);
    m.apply(Update::SpanReceived(span(10, "a")), NOW);
    m.apply(Update::SpanReceived(span(20, "b")), NOW);
    m.apply(Update::SelectDown, NOW);
    m.apply(Update::SelectDown, NOW);
    assert_eq!(m.selected, 1);
    m.apply(Update::SelectUp, NOW);
    m.apply(Update::SelectUp, NOW);
    assert_eq!(m.selected, 0);
}

#[test]
fn model_quit_returns_quit_effect() {
    let mut m = Model::new(8);
    assert_eq!(m.apply(Update::Quit, NOW), Effect::Quit);
}

fn timed_span(id: u64, parent: Option<u64>, name: &str, opened: u64, closed: u64) -> WireSpan {
    let mut s = span_with_parent(id, name, parent);
    s.opened_at_ns = opened;
    s.closed_at_ns = Some(closed);
    s
}

fn timed_span_with_field(
    id: u64,
    parent: Option<u64>,
    name: &str,
    opened: u64,
    closed: u64,
    k: &str,
    v: &str,
) -> WireSpan {
    let mut s = timed_span(id, parent, name, opened, closed);
    s.fields.push((
        k.to_string(),
        WireFieldValue::Str(v.into()),
    ));
    s
}

fn current_graph(m: &Model) -> &GraphState {
    match &m.view {
        ViewMode::Graph(gs) => gs,
        _ => panic!("expected graph view, got table"),
    }
}

#[test]
fn model_toggle_graph_locks_onto_selected_bucket() {
    let mut m = Model::new(8);
    m.apply(Update::SpanReceived(span(10, "alpha")), NOW);
    m.apply(Update::SpanReceived(span(11, "beta")), NOW);
    m.apply(Update::SelectDown, NOW); // highlight `beta`
    m.apply(Update::ToggleGraph, NOW);
    let gs = current_graph(&m);
    assert_eq!(gs.locked_stack, vec!["beta".to_string()]);
    assert!(matches!(gs.aggregation, AggMode::Avg));
    assert_eq!(gs.metric, Metric::Total);
    assert!((secs(gs.window_secs) - 1.0).abs() < 1e-9);
}

#[test]
fn model_toggle_graph_round_trip_returns_to_table() {
    let mut m = Model::new(8);
    m.apply(Update::SpanReceived(span(10, "alpha")), NOW);
    m.apply(Update::ToggleGraph, NOW);
    assert!(matches!(m.view, ViewMode::Graph(_)));
    m.apply(Update::ToggleGraph, NOW);
    assert!(matches!(m.view, ViewMode::Table));
}

#[test]
fn model_toggle_graph_with_nothing_selected_stays_in_table() {
    let mut m = Model::new(8);
    m.apply(Update::ToggleGraph, NOW);
    assert!(matches!(m.view, ViewMode::Table));
}

/// Drive the agg-input modal by typing `input` and pressing
/// Enter; returns the resulting aggregation.
fn type_agg(m: &mut Model, input: &str) -> AggMode {
    m.apply(Update::BeginGraphAggInput, NOW);
    for c in input.chars() {
        m.apply(Update::GraphAggInputChar(c), NOW);
    }
    m.apply(Update::GraphAggInputCommit, NOW);
    current_graph(m).aggregation
}

#[test]
fn model_graph_agg_input_avg_via_a_and_avg() {
    let mut m = Model::new(8);
    m.apply(Update::SpanReceived(span(10, "alpha")), NOW);
    m.apply(Update::ToggleGraph, NOW);
    // Force off Avg first so the assertion is meaningful.
    m.apply(Update::SetGraphAgg(AggMode::Min), NOW);
    assert_eq!(type_agg(&mut m, "a"), AggMode::Avg);
    m.apply(Update::SetGraphAgg(AggMode::Min), NOW);
    assert_eq!(type_agg(&mut m, "avg"), AggMode::Avg);
}

#[test]
fn model_graph_agg_input_min_max_keywords() {
    let mut m = Model::new(8);
    m.apply(Update::SpanReceived(span(10, "alpha")), NOW);
    m.apply(Update::ToggleGraph, NOW);
    assert_eq!(type_agg(&mut m, "min"), AggMode::Min);
    assert_eq!(type_agg(&mut m, "max"), AggMode::Max);
}

#[test]
fn model_graph_agg_input_percentile() {
    let mut m = Model::new(8);
    m.apply(Update::SpanReceived(span(10, "alpha")), NOW);
    m.apply(Update::ToggleGraph, NOW);
    assert_eq!(type_agg(&mut m, "p50"), AggMode::Percentile(double(50.0)));
    assert_eq!(type_agg(&mut m, "p99.5"), AggMode::Percentile(double(99.5)));
    // Single-digit percentile is fine too.
    assert_eq!(type_agg(&mut m, "p5"), AggMode::Percentile(double(5.0)));
}

#[test]
fn model_graph_agg_input_p0_is_min_p100_or_higher_is_max() {
    let mut m = Model::new(8);
    m.apply(Update::SpanReceived(span(10, "alpha")), NOW);
    m.apply(Update::ToggleGraph, NOW);
    assert_eq!(type_agg(&mut m, "p0"), AggMode::Min);
    assert_eq!(type_agg(&mut m, "p100"), AggMode::Max);
    // Anything above 100 also clamps to Max.
    assert_eq!(type_agg(&mut m, "p9999"), AggMode::Max);
}

#[test]
fn model_graph_agg_input_uppercase_is_normalised() {
    let mut m = Model::new(8);
    m.apply(Update::SpanReceived(span(10, "alpha")), NOW);
    m.apply(Update::ToggleGraph, NOW);
    assert_eq!(type_agg(&mut m, "AVG"), AggMode::Avg);
    assert_eq!(type_agg(&mut m, "Min"), AggMode::Min);
    assert_eq!(type_agg(&mut m, "P50"), AggMode::Percentile(double(50.0)));
}

#[test]
fn model_graph_agg_input_rejects_garbage_silently() {
    let mut m = Model::new(8);
    m.apply(Update::SpanReceived(span(10, "alpha")), NOW);
    m.apply(Update::ToggleGraph, NOW);
    let original = current_graph(&m).aggregation;
    // Stray `x` is filtered out by the char handler; the remaining
    // buffer is "" which is not parseable, so the commit no-ops.
    m.apply(Update::BeginGraphAggInput, NOW);
    m.apply(Update::GraphAggInputChar('x'), NOW);
    m.apply(Update::GraphAggInputChar('!'), NOW);
    m.apply(Update::GraphAggInputCommit, NOW);
    assert_eq!(current_graph(&m).aggregation, original);

    // A typo'd keyword also no-ops cleanly.
    m.apply(Update::BeginGraphAggInput, NOW);
    for c in "minx".chars() {
        m.apply(Update::GraphAggInputChar(c), NOW);
    }
    m.apply(Update::GraphAggInputCommit, NOW);
    assert_eq!(current_graph(&m).aggregation, original);
}

#[test]
fn model_graph_agg_input_cancel_drops_buffer() {
    let mut m = Model::new(8);
    m.apply(Update::SpanReceived(span(10, "alpha")), NOW);
    m.apply(Update::ToggleGraph, NOW);
    let original = current_graph(&m).aggregation;
    m.apply(Update::BeginGraphAggInput, NOW);
    for c in "p99".chars() {
        m.apply(Update::GraphAggInputChar(c), NOW);
    }
    m.apply(Update::GraphAggInputCancel, NOW);
    assert!(current_graph(&m).agg_input.is_none());
    assert_eq!(current_graph(&m).aggregation, original);
}

#[test]
fn model_graph_window_input_rejects_zero_and_negatives() {
    let mut m = Model::new(8);
    m.apply(Update::SpanReceived(span(10, "a")), NOW);
    m.apply(Update::ToggleGraph, NOW);
    let original = current_graph(&m).window_secs;

    for bad in ["0", ""] {
        m.apply(Update::BeginGraphWindowInput, NOW);
        for c in bad.chars() {
            m.apply(Update::GraphWindowInputChar(c), NOW);
        }
        m.apply(Update::GraphWindowInputCommit, NOW);
        assert!((secs(current_graph(&m).window_secs) - secs(original)).abs() < 1e-9);
    }
}

#[test]
fn model_graph_window_input_commits_positive_float() {
    let mut m = Model::new(8);
    m.apply(Update::SpanReceived(span(10, "a")), NOW);
    m.apply(Update::ToggleGraph, NOW);
    m.apply(Update::BeginGraphWindowInput, NOW);
    for c in "0.5".chars() {
        m.apply(Update::GraphWindowInputChar(c), NOW);
    }
    m.apply(Update::GraphWindowInputCommit, NOW);
    assert!((secs(current_graph(&m).window_secs) - 0.5).abs() < 1e-9);
}

#[test]
fn model_graph_metric_toggle_rehydrates_store() {
    let mut m = Model::new(8);
    m.apply(Update::SpanReceived(timed_span(10, None, "a", 0, 100)), NOW);
    m.apply(Update::ToggleGraph, NOW);
    m.apply(Update::SpanReceived(timed_span(11, None, "a", 100, 250)), NOW);
    let before = current_graph(&m).store.series.len();
    assert!(before > 0);

    m.apply(Update::ToggleGraphMetric, NOW);
    // Metric flipped + store re-populated from the ring, not
    // wiped, so the user can compare Total vs SelfTime without
    // losing their existing history.
    assert_eq!(current_graph(&m).metric, Metric::SelfTime);
    assert_eq!(current_graph(&m).store.series.len(), before);
}

/// Drive the details cursor down past every series row so it
/// lands on the first key candidate.  Used by tests that want
/// to operate on the split-keys section without enumerating the
/// exact series count by hand.
fn move_cursor_to_first_key(m: &mut Model) {
    if let ViewMode::Graph(gs) = &m.view {
        assert_eq!(gs.focus, GraphFocus::Details, "tab into Details first");
        let target = gs.series_keys().len();
        // Down from wherever; clamped at total - 1.  Drive past
        // any series rows so the cursor lands on candidate[0].
        for _ in 0..target {
            m.apply(Update::GraphSelectDown, NOW);
        }
    }
}

#[test]
fn model_graph_toggle_split_re_partitions_existing_history() {
    let mut m = Model::new(16);
    m.apply(Update::SpanReceived(timed_span_with_field(
        10, None, "req", 0, 100, "api", "fetch",
    )), NOW);
    m.apply(Update::SpanReceived(timed_span_with_field(
        11, None, "req", 100, 200, "api", "update",
    )), NOW);
    m.apply(Update::ToggleGraph, NOW);
    m.apply(Update::SpanReceived(timed_span_with_field(
        12, None, "req", 200, 300, "api", "fetch",
    )), NOW);
    // No split yet → one merged series.
    assert_eq!(current_graph(&m).store.series.len(), 1);

    m.apply(Update::GraphSwitchFocus, NOW);
    move_cursor_to_first_key(&mut m);
    m.apply(Update::GraphToggleSplit, NOW);
    let gs = current_graph(&m);
    assert!(gs.split_keys.contains(&"api".to_string()));
    // Store rehydrated from the ring under the new split → two
    // series ("fetch" + "update"), not empty.
    assert_eq!(gs.store.series.len(), 2);

    // Cursor should now be pinned at the `api` key row, not
    // dragged onto a newly-appeared series row.
    m.apply(Update::GraphToggleSplit, NOW);
    let gs = current_graph(&m);
    assert!(!gs.split_keys.contains(&"api".to_string()));
    assert_eq!(gs.store.series.len(), 1);
}

#[test]
fn model_graph_split_change_works_after_tracing_stops() {
    // Mirrors the user-facing scenario: stream a few spans,
    // freeze the input (no more SpanReceived), then change the
    // split and confirm the series count actually changes.  The
    // rehydrate path walks the aggregator's ring rather than
    // waiting for new arrivals.
    let mut m = Model::new(16);
    m.apply(Update::SpanReceived(timed_span_with_field(
        10, None, "req", 0, 100, "api", "fetch",
    )), NOW);
    m.apply(Update::SpanReceived(timed_span_with_field(
        11, None, "req", 100, 200, "api", "update",
    )), NOW);
    m.apply(Update::SpanReceived(timed_span_with_field(
        12, None, "req", 200, 300, "api", "post",
    )), NOW);
    m.apply(Update::ToggleGraph, NOW);
    // No more spans arrive past this point — simulates tracing
    // being toggled off.
    assert_eq!(current_graph(&m).store.series.len(), 1);

    m.apply(Update::GraphSwitchFocus, NOW);
    move_cursor_to_first_key(&mut m);
    m.apply(Update::GraphToggleSplit, NOW);
    // Now three series, all derived from the same frozen ring.
    assert_eq!(current_graph(&m).store.series.len(), 3);
}

#[test]
fn model_graph_record_partitions_by_split_keys() {
    let mut m = Model::new(16);
    m.apply(Update::SpanReceived(timed_span_with_field(
        10, None, "req", 0, 100, "api", "fetch",
    )), NOW);
    m.apply(Update::ToggleGraph, NOW);
    // Enable the api split via Details → first key row.
    m.apply(Update::GraphSwitchFocus, NOW);
    move_cursor_to_first_key(&mut m);
    m.apply(Update::GraphToggleSplit, NOW);
    // Feed two spans with distinct `api` values.
    m.apply(Update::SpanReceived(timed_span_with_field(
        20, None, "req", 100, 200, "api", "fetch",
    )), NOW);
    m.apply(Update::SpanReceived(timed_span_with_field(
        21, None, "req", 200, 300, "api", "post",
    )), NOW);
    let gs = current_graph(&m);
    assert_eq!(gs.store.series.len(), 2);
}

#[test]
fn model_graph_window_resize_rehydrates_under_new_window() {
    let mut m = Model::new(8);
    m.apply(Update::SpanReceived(timed_span(10, None, "a", 0, 100)), NOW);
    m.apply(Update::ToggleGraph, NOW);
    m.apply(Update::SpanReceived(timed_span(11, None, "a", 100, 200)), NOW);
    let before = current_graph(&m).store.series.len();
    assert!(before > 0);

    m.apply(Update::BeginGraphWindowInput, NOW);
    for c in "5".chars() {
        m.apply(Update::GraphWindowInputChar(c), NOW);
    }
    m.apply(Update::GraphWindowInputCommit, NOW);
    let gs = current_graph(&m);
    assert!((secs(gs.window_secs) - 5.0).abs() < 1e-9);
    // Bins were re-laid-out under the new window, not wiped.
    assert_eq!(gs.store.series.len(), before);
}

#[test]
fn model_graph_details_cursor_walks_series_then_keys() {
    let mut m = Model::new(16);
    m.apply(Update::SpanReceived(timed_span_with_field(
        10, None, "req", 0, 100, "api", "fetch",
    )), NOW);
    m.apply(Update::SpanReceived(timed_span_with_field(
        11, None, "req", 100, 200, "api", "update",
    )), NOW);
    m.apply(Update::ToggleGraph, NOW);
    m.apply(Update::GraphSwitchFocus, NOW);
    // Walk past the merged "(all)" series to land on the api key,
    // then toggle the split on so we have two series + one key.
    move_cursor_to_first_key(&mut m);
    m.apply(Update::GraphToggleSplit, NOW);
    assert_eq!(current_graph(&m).series_keys().len(), 2);

    // After the toggle, the cursor is pinned on the api key at
    // index 2 (= 2 series + 0 key offset).
    assert_eq!(current_graph(&m).details_selected, 2);

    // Down past the end clamps; Up retraces.
    m.apply(Update::GraphSelectDown, NOW);
    assert_eq!(current_graph(&m).details_selected, 2, "clamped at last row");
    m.apply(Update::GraphSelectUp, NOW);
    assert_eq!(current_graph(&m).details_selected, 1);
    m.apply(Update::GraphSelectUp, NOW);
    assert_eq!(current_graph(&m).details_selected, 0);
    m.apply(Update::GraphSelectUp, NOW);
    assert_eq!(current_graph(&m).details_selected, 0, "clamped at first row");
}

#[test]
fn model_graph_space_on_series_row_toggles_visibility() {
    let mut m = Model::new(16);
    m.apply(Update::SpanReceived(timed_span_with_field(
        10, None, "req", 0, 100, "api", "fetch",
    )), NOW);
    m.apply(Update::SpanReceived(timed_span_with_field(
        11, None, "req", 100, 200, "api", "update",
    )), NOW);
    m.apply(Update::ToggleGraph, NOW);
    m.apply(Update::GraphSwitchFocus, NOW);
    move_cursor_to_first_key(&mut m);
    m.apply(Update::GraphToggleSplit, NOW); // enable api split → 2 series

    let series = current_graph(&m).series_keys();
    assert_eq!(series.len(), 2);

    // Move cursor back up onto the first series row.
    m.apply(Update::GraphSelectUp, NOW);
    m.apply(Update::GraphSelectUp, NOW);
    assert_eq!(current_graph(&m).details_selected, 0);

    m.apply(Update::GraphToggleSplit, NOW);
    let gs = current_graph(&m);
    assert!(gs.hidden_series.contains(&series[0]));
    assert_eq!(gs.series_keys().len(), 2, "store keeps the data");

    // Second press un-hides.
    m.apply(Update::GraphToggleSplit, NOW);
    assert!(!current_graph(&m).hidden_series.contains(&series[0]));
}

#[test]
fn model_graph_space_on_key_row_still_toggles_split() {
    let mut m = Model::new(16);
    m.apply(Update::SpanReceived(timed_span_with_field(
        10, None, "req", 0, 100, "api", "fetch",
    )), NOW);
    m.apply(Update::SpanReceived(timed_span_with_field(
        11, None, "req", 100, 200, "api", "update",
    )), NOW);
    m.apply(Update::ToggleGraph, NOW);
    m.apply(Update::GraphSwitchFocus, NOW);
    move_cursor_to_first_key(&mut m);
    m.apply(Update::GraphToggleSplit, NOW); // turn split on → 2 series

    // After the toggle the cursor is pinned on the api key.
    // Another Space on that same row should turn the split off.
    m.apply(Update::GraphToggleSplit, NOW);
    assert!(!current_graph(&m).split_keys.contains(&"api".to_string()));
    assert!(
        current_graph(&m).hidden_series.len() == 0,
        "split change clears hidden_series"
    );
}

#[test]
fn model_graph_split_toggle_clears_hidden_series() {
    // Hide a series, then change splits — the hidden flag
    // should not leak into a different series space.
    let mut m = Model::new(16);
    m.apply(Update::SpanReceived(timed_span_with_field(
        10, None, "req", 0, 100, "api", "fetch",
    )), NOW);
    m.apply(Update::SpanReceived(timed_span_with_field(
        11, None, "req", 100, 200, "api", "update",
    )), NOW);
    m.apply(Update::ToggleGraph, NOW);
    m.apply(Update::GraphSwitchFocus, NOW);
    move_cursor_to_first_key(&mut m);
    m.apply(Update::GraphToggleSplit, NOW); // enable split

    // Cursor pinned at the api key.  Walk it back to series[0]
    // and hide it.
    m.apply(Update::GraphSelectUp, NOW);
    m.apply(Update::GraphSelectUp, NOW);
    m.apply(Update::GraphToggleSplit, NOW);
    assert!(current_graph(&m).hidden_series.len() > 0);

    // Now move back to the key row and toggle the split off.
    m.apply(Update::GraphSelectDown, NOW);
    m.apply(Update::GraphSelectDown, NOW);
    m.apply(Update::GraphToggleSplit, NOW);
    let gs = current_graph(&m);
    assert!(gs.split_keys.len() == 0);
    assert!(gs.hidden_series.len() == 0);
}

#[test]
fn model_graph_series_summary_aggregates_per_series() {
    // Three matching spans, distinct durations + one split value;
    // confirm `series_summary` rolls them up correctly.
    let mut m = Model::new(16);
    m.apply(Update::SpanReceived(timed_span_with_field(
        10, None, "req", 0, 100, "api", "fetch",
    )), NOW);
    m.apply(Update::SpanReceived(timed_span_with_field(
        11, None, "req", 1_000_000_000, 1_000_000_500, "api", "fetch",
    )), NOW);
    m.apply(Update::SpanReceived(timed_span_with_field(
        12, None, "req", 2_000_000_000, 2_000_000_200, "api", "update",
    )), NOW);
    m.apply(Update::ToggleGraph, NOW);
    m.apply(Update::GraphSwitchFocus, NOW);
    move_cursor_to_first_key(&mut m);
    m.apply(Update::GraphToggleSplit, NOW);

    let summary = current_graph(&m).store.series_summary(AggMode::Avg);
    assert_eq!(summary.len(), 2);
    // Sorted by key — `api=fetch` first, `api=update` second.
    let fetch = &summary[0];
    let update_ = &summary[1];
    assert_eq!(fetch.key, vec![("api".into(), "fetch".into())]);
    assert_eq!(fetch.count, 2);
    assert_eq!(fetch.min_ns, 100);          // 100 - 0
    assert_eq!(fetch.max_ns, 500);          // 1_000_000_500 - 1_000_000_000
    // avg = (100 + 500) / 2 = 300
    assert_eq!(fetch.avg_ns, 300);

    assert_eq!(update_.key, vec![("api".into(), "update".into())]);
    assert_eq!(update_.count, 1);
    assert_eq!(update_.min_ns, 200);
    assert_eq!(update_.max_ns, 200);
    assert_eq!(update_.avg_ns, 200);
    assert_eq!(update_.last_ns, 200);
}

#[test]
fn model_graph_default_sort_is_count() {
    let mut m = Model::new(8);
    m.apply(Update::SpanReceived(timed_span(10, None, "alpha", 0, 100)), NOW);
    m.apply(Update::ToggleGraph, NOW);
    assert_eq!(current_graph(&m).sort_column, SortColumn::Count);
}

#[test]
fn model_graph_left_right_cycle_sort_column() {
    let mut m = Model::new(16);
    m.apply(Update::SpanReceived(timed_span_with_field(
        10, None, "req", 0, 100, "api", "fetch",
    )), NOW);
    m.apply(Update::SpanReceived(timed_span_with_field(
        11, None, "req", 100, 200, "api", "update",
    )), NOW);
    m.apply(Update::ToggleGraph, NOW);
    m.apply(Update::GraphSwitchFocus, NOW);
    move_cursor_to_first_key(&mut m);
    m.apply(Update::GraphToggleSplit, NOW); // enable api split

    // Columns are: SplitKey(api), Count, Min, Avg, Max, Last.
    // Default sort is Count.
    assert_eq!(current_graph(&m).sort_column, SortColumn::Count);

    // Right cycles through Min, Avg, Max, Last, then wraps to SplitKey(api).
    m.apply(Update::GraphSortColumnRight, NOW);
    assert_eq!(current_graph(&m).sort_column, SortColumn::Min);
    m.apply(Update::GraphSortColumnRight, NOW);
    assert_eq!(current_graph(&m).sort_column, SortColumn::Avg);
    m.apply(Update::GraphSortColumnRight, NOW);
    assert_eq!(current_graph(&m).sort_column, SortColumn::Max);
    m.apply(Update::GraphSortColumnRight, NOW);
    assert_eq!(current_graph(&m).sort_column, SortColumn::Last);
    m.apply(Update::GraphSortColumnRight, NOW);
    assert_eq!(
        current_graph(&m).sort_column,
        SortColumn::SplitKey("api".into())
    );

    // Left wraps the other way.
    m.apply(Update::GraphSortColumnLeft, NOW);
    assert_eq!(current_graph(&m).sort_column, SortColumn::Last);
}

#[test]
fn model_graph_series_keys_order_follows_sort_column() {
    // Three series with predictable counts so we can verify the
    // resulting order under different sort columns.  series order
    // by count desc: fetch(3), update(2), post(1).
    let mut m = Model::new(32);
    for id in 0..3u64 {
        m.apply(Update::SpanReceived(timed_span_with_field(
            10 + id,
            None,
            "req",
            id * 10,
            id * 10 + 50,
            "api",
            "fetch",
        )), NOW);
    }
    for id in 0..2u64 {
        m.apply(Update::SpanReceived(timed_span_with_field(
            20 + id,
            None,
            "req",
            id * 10,
            id * 10 + 60,
            "api",
            "update",
        )), NOW);
    }
    m.apply(Update::SpanReceived(timed_span_with_field(
        30, None, "req", 0, 70, "api", "post",
    )), NOW);
    m.apply(Update::ToggleGraph, NOW);
    m.apply(Update::GraphSwitchFocus, NOW);
    move_cursor_to_first_key(&mut m);
    m.apply(Update::GraphToggleSplit, NOW); // turn split on → 3 series

    // Count is descending: fetch (3), update (2), post (1).
    let order: Vec<String> = current_graph(&m)
        .series_keys()
        .iter()
        .map(|k| k[0].1.clone())
        .collect();
    assert_eq!(order, vec!["fetch", "update", "post"]);

    // Switch to SplitKey(api) — alphabetical ascending: fetch, post, update.
    m.apply(Update::GraphSortColumnLeft, NOW); // Count → SplitKey(api)
    let order: Vec<String> = current_graph(&m)
        .series_keys()
        .iter()
        .map(|k| k[0].1.clone())
        .collect();
    assert_eq!(order, vec!["fetch", "post", "update"]);

    // Switch to Max (descending): fetch=50, update=70, post=70.
    // Update first by alpha within max-tie at 70.
    m.apply(Update::GraphSortColumnRight, NOW); // → Count
    m.apply(Update::GraphSortColumnRight, NOW); // → Min
    m.apply(Update::GraphSortColumnRight, NOW); // → Avg
    m.apply(Update::GraphSortColumnRight, NOW); // → Max
    assert_eq!(current_graph(&m).sort_column, SortColumn::Max);
    let order: Vec<String> = current_graph(&m)
        .series_keys()
        .iter()
        .map(|k| k[0].1.clone())
        .collect();
    assert_eq!(order, vec!["post", "update", "fetch"]);
}

#[test]
fn model_graph_sort_falls_back_when_split_removed() {
    let mut m = Model::new(16);
    m.apply(Update::SpanReceived(timed_span_with_field(
        10, None, "req", 0, 100, "api", "fetch",
    )), NOW);
    m.apply(Update::SpanReceived(timed_span_with_field(
        11, None, "req", 100, 200, "api", "update",
    )), NOW);
    m.apply(Update::ToggleGraph, NOW);
    m.apply(Update::GraphSwitchFocus, NOW);
    move_cursor_to_first_key(&mut m);
    m.apply(Update::GraphToggleSplit, NOW); // enable split → SplitKey(api) now selectable
    m.apply(Update::GraphSortColumnLeft, NOW); // Count → SplitKey(api)
    assert_eq!(
        current_graph(&m).sort_column,
        SortColumn::SplitKey("api".into())
    );

    // Disable the split — sort column should fall back to Count.
    m.apply(Update::GraphToggleSplit, NOW);
    assert!(current_graph(&m).split_keys.len() == 0);
    assert_eq!(current_graph(&m).sort_column, SortColumn::Count);
}

#[test]
fn model_graph_chart_focus_cursor_walks_series_only() {
    // Two series + one candidate key.  In Chart focus the cursor
    // must stop at series[1] (index 1); it must not slip onto
    // the key row (which is only reachable when Details is
    // expanded).
    let mut m = Model::new(16);
    m.apply(Update::SpanReceived(timed_span_with_field(
        10, None, "req", 0, 100, "api", "fetch",
    )), NOW);
    m.apply(Update::SpanReceived(timed_span_with_field(
        11, None, "req", 100, 200, "api", "update",
    )), NOW);
    m.apply(Update::ToggleGraph, NOW);
    // Enable api split via Details.
    m.apply(Update::GraphSwitchFocus, NOW);
    move_cursor_to_first_key(&mut m);
    m.apply(Update::GraphToggleSplit, NOW);
    // Tab back to Chart focus.
    m.apply(Update::GraphSwitchFocus, NOW);
    assert_eq!(current_graph(&m).focus, GraphFocus::Chart);
    // Cursor was at the key row (index 2) but got clamped to
    // series_count - 1 = 1 on the focus switch.
    assert_eq!(current_graph(&m).details_selected, 1);
    // Down clamps at series count - 1.
    m.apply(Update::GraphSelectDown, NOW);
    assert_eq!(current_graph(&m).details_selected, 1, "no key rows in Chart focus");
    m.apply(Update::GraphSelectUp, NOW);
    assert_eq!(current_graph(&m).details_selected, 0);
}

#[test]
fn model_graph_chart_focus_space_toggles_series_visibility() {
    // From compact (Chart focus) the user should still be able
    // to navigate the series list with j/k and toggle visibility
    // with Space.  Re-uses the merged "(all)" series as the
    // simplest workable bucket.
    let mut m = Model::new(16);
    m.apply(Update::SpanReceived(timed_span(10, None, "alpha", 0, 100)), NOW);
    m.apply(Update::SpanReceived(timed_span(11, None, "alpha", 100, 200)), NOW);
    m.apply(Update::ToggleGraph, NOW);
    assert_eq!(current_graph(&m).focus, GraphFocus::Chart);

    let series = current_graph(&m).series_keys();
    assert_eq!(series.len(), 1);
    m.apply(Update::GraphToggleSplit, NOW);
    assert!(current_graph(&m).hidden_series.contains(&series[0]));
    m.apply(Update::GraphToggleSplit, NOW);
    assert!(!current_graph(&m).hidden_series.contains(&series[0]));
}

#[test]
fn model_graph_entry_rehydrates_from_existing_ring() {
    let mut m = Model::new(8);
    // Build up some ring history before entering graph mode.
    for i in 0..5u64 {
        m.apply(Update::SpanReceived(timed_span(
            10 + i,
            None,
            "alpha",
            i * 100,
            i * 100 + 50,
        )), NOW);
    }
    m.apply(Update::ToggleGraph, NOW);
    // Chart should be non-empty immediately — populated from
    // the ring rather than waiting for new arrivals.
    assert!(current_graph(&m).store.series.len() > 0);
}
