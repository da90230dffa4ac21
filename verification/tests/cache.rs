//! The cache of spans, used as a program that is traced would use it.

use std::collections::HashSet;

use compact_str::CompactString;
use tracing::span::Id;
use tracing_console::cache::config::{CacheConfig, DEFAULT_LANE_COUNT};
use tracing_console::cache::driver::{Driver, EventMessage};
use tracing_console::cache::ident::DISABLED;
use tracing_console::cache::predicate::{
    Attributes, ChancePredicate, EnabledPredicate, Interest, LevelPredicate, ParentOf,
};
use tracing_console::cache::record::{
    set_field, set_fields, EventRecord, FieldList, FieldValue, Metadata, SpanRecord,
};
use tracing_console::cache::store::{Event, Pending, SpanCache};
use tracing_console::cache::thread::ThreadState;
use tracing_console::pattern::Double;
use tracing_console::protocol::{WireFieldValue, WireLevel, WireLevelFilter};
use tracing_console::wire::{span_to_wire, TimeBase};

fn span_field(record: &SpanRecord, name: &str) -> Option<String> {
    record.field(name).map(|v| v.to_display_string().to_string())
}

fn event_field(event: &EventRecord, name: &str) -> Option<String> {
    event.field(name).map(|v| v.to_display_string().to_string())
}

fn text(s: &'static str) -> FieldValue {
    FieldValue::Str(s)
}

fn message(s: &str) -> FieldValue {
    FieldValue::SmallString(CompactString::from(s))
}

fn fields(of: Vec<(&str, FieldValue)>) -> FieldList {
    of.into_iter().map(|(k, v)| (k.to_string(), v)).collect()
}

fn metadata(name: &str, level: WireLevel) -> Metadata {
    Metadata { name: name.to_string(), target: "test".to_string(), level }
}

/// One thread of a program, with the cache and the driver behind it.
struct Rig<P: EnabledPredicate> {
    cache: SpanCache<P>,
    driver: Driver,
    thread: ThreadState,
    now: u64,
    events: Vec<EventMessage>,
    spans: Vec<SpanRecord>,
}

impl<P: EnabledPredicate> Rig<P> {
    fn new(made: (SpanCache<P>, Driver)) -> Self {
        let mut next_key: u64 = 0;
        Rig {
            cache: made.0,
            driver: made.1,
            thread: ThreadState::register(&mut next_key),
            now: 0,
            events: Vec::new(),
            spans: Vec::new(),
        }
    }

    fn tick(&mut self) -> u64 {
        self.now += 1;
        self.now
    }

    /// Opens a span, unless the program would not even ask for it.
    fn span(
        &mut self,
        parent: ParentOf,
        level: WireLevel,
        name: &str,
        of: Vec<(&str, FieldValue)>,
    ) -> Option<Id> {
        let meta = metadata(name, level);
        if self.cache.register_callsite(&meta) == Interest::Never {
            return None;
        }
        if !self.cache.enabled(&self.thread, &meta) {
            return None;
        }
        let now = self.tick();
        let span = Attributes { parent, metadata: meta, fields: fields(of) };
        Some(self.cache.new_span(&mut self.thread, &span, now))
    }

    fn root(&mut self, name: &str, of: Vec<(&str, FieldValue)>) -> Id {
        self.span(ParentOf::Root, WireLevel::Info, name, of).unwrap()
    }

    fn child(&mut self, name: &str, of: Vec<(&str, FieldValue)>) -> Id {
        self.span(ParentOf::Context, WireLevel::Info, name, of).unwrap()
    }

    fn actual_id(&self, id: &Id) -> u64 {
        self.cache.actual_id_for(id.into_u64()).unwrap()
    }

    fn enter(&mut self, id: &Id) {
        self.cache.enter(&mut self.thread, id);
    }

    fn exit(&mut self, id: &Id) {
        self.cache.exit(&mut self.thread, id);
    }

    fn record(&mut self, id: &Id, name: &str, value: FieldValue) {
        self.cache.record(id, &fields(vec![(name, value)]));
    }

    fn event(&mut self, of: Vec<(&str, FieldValue)>) {
        let now = self.tick();
        let event =
            Event { parent: None, metadata: metadata("event", WireLevel::Info), fields: fields(of) };
        if self.cache.event(&mut self.thread, &event, now) == Pending::Flush {
            self.flush();
        }
    }

    fn close(&mut self, id: &Id) {
        let now = self.tick();
        if self.cache.try_close(&mut self.thread, id, now).1 == Pending::Flush {
            self.flush();
        }
    }

    fn flush(&mut self) {
        let (events, spans) = self.cache.flush_pending(&mut self.thread);
        self.events.extend(events);
        self.spans.extend(spans);
    }

    /// Everything that was closed so far, as a watcher gets it.
    fn drain(&mut self) -> Vec<SpanRecord> {
        self.flush();
        let events = std::mem::take(&mut self.events);
        let spans = std::mem::take(&mut self.spans);
        self.driver.drain_sync(events, spans)
    }
}

fn make_cache(capacity: usize) -> Rig<LevelPredicate> {
    Rig::new(SpanCache::new(capacity))
}

fn find_span(spans: &[SpanRecord], actual_id: u64) -> &SpanRecord {
    spans.iter().find(|s| s.id == actual_id).unwrap()
}

struct DisableByName(&'static str);

impl EnabledPredicate for DisableByName {
    fn max_level_hint(&self) -> Option<WireLevelFilter> {
        None
    }

    fn callsite_enabled(&self, _: &Metadata) -> Interest {
        Interest::Sometimes
    }

    fn enabled(&self, _: &Metadata) -> bool {
        true
    }

    fn new_span_enabled(&self, span: &Attributes) -> bool {
        span.metadata.name != self.0
    }
}

#[test]
fn basic_span_creation_and_retrieval() {
    let mut rig = make_cache(10);
    let span = rig.root("root", vec![("field", text("value"))]);
    let actual_id = rig.actual_id(&span);
    rig.enter(&span);
    rig.exit(&span);
    rig.close(&span);
    let collected = rig.drain();
    let record = find_span(&collected, actual_id);
    assert_eq!(record.id, actual_id);
    assert_eq!(record.metadata.name, "root");
    assert_eq!(span_field(record, "field").as_deref(), Some("value"));
}

#[test]
fn closed_at_set_after_drop() {
    let mut rig = make_cache(10);
    let span = rig.root("root", vec![]);
    let actual_id = rig.actual_id(&span);
    rig.enter(&span);
    rig.exit(&span);
    rig.close(&span);
    let collected = rig.drain();
    assert!(find_span(&collected, actual_id).closed_at.is_some());
}

#[test]
fn child_of_disabled_is_disabled() {
    let mut rig = Rig::new(SpanCache::with_predicate(10, DisableByName("bad_parent")));
    let parent = rig.root("bad_parent", vec![]);
    assert_eq!(parent.into_u64(), DISABLED, "predicate disables this span");
    rig.enter(&parent);
    let child = rig.span(ParentOf::Context, WireLevel::Info, "child", vec![]);
    assert_eq!(child, None, "nothing is asked for within a disabled span");
}

#[test]
fn contextual_span_with_empty_stack_is_disabled() {
    let mut rig = make_cache(10);
    let span = rig.child("contextual", vec![]);
    assert_eq!(span.into_u64(), DISABLED);
}

#[test]
fn root_span_with_active_stack_is_disabled() {
    let mut rig = make_cache(10);
    let root_a = rig.root("root_a", vec![]);
    rig.enter(&root_a);
    let root_b = rig.root("root_b", vec![]);
    assert_eq!(root_b.into_u64(), DISABLED);
}

#[test]
fn eviction_full_of_open_spans_returns_disabled() {
    // Room for two over sixteen lanes is room for one in each lane, and a
    // thread has only one lane.
    let mut rig = make_cache(2);
    let s1 = rig.root("s1", vec![]);
    let s2 = rig.root("s2", vec![]);
    assert_ne!(s1.into_u64(), DISABLED);
    assert_eq!(s2.into_u64(), DISABLED);
}

#[test]
fn custom_lane_count_is_respected() {
    let config = CacheConfig { lane_count: 4, ..CacheConfig::default() };
    let mut rig = Rig::new(SpanCache::with_config(4, config));
    assert_eq!(rig.cache.lane_count(), 4);
    let _s1 = rig.root("s1", vec![]);
    let s2 = rig.root("s2", vec![]);
    assert_eq!(s2.into_u64(), DISABLED);
}

#[test]
fn separate_threads_get_distinct_keys() {
    let config = CacheConfig { lane_count: 16, ..CacheConfig::default() };
    let (mut cache, _driver) = SpanCache::with_config(64 * 16, config);
    let mut next_key: u64 = 0;
    let mut shards: HashSet<u64> = HashSet::new();
    for _ in 0..8 {
        let mut thread = ThreadState::register(&mut next_key);
        let span = Attributes {
            parent: ParentOf::Root,
            metadata: metadata("tt", WireLevel::Info),
            fields: vec![],
        };
        let id = cache.new_span(&mut thread, &span, 1).into_u64();
        shards.insert(id >> 60);
    }
    assert!(shards.len() >= 2, "expected several lanes, got {shards:?}");
}

#[test]
fn lane_count_is_clamped_and_rounded_to_power_of_two() {
    let cases = [
        (0_usize, 1_usize),
        (1, 1),
        (3, 4),
        (5, 8),
        (16, 16),
        (200, 256),
        (256, 256),
        (1000, 256),
    ];
    for (input, expected) in cases {
        let config = CacheConfig { lane_count: input, ..CacheConfig::default() };
        let (cache, _driver) = SpanCache::with_config(64, config);
        assert_eq!(cache.lane_count(), expected, "lane_count({input})");
    }
}

#[test]
fn subscribe_yields_closed_spans_in_commit_order() {
    let mut rig = make_cache(10);
    let mut ids = Vec::new();
    for _ in 0..5usize {
        let span = rig.root("s", vec![]);
        ids.push(rig.actual_id(&span));
        rig.close(&span);
    }
    assert_eq!(ids.len(), 5);
    let observed_ids: Vec<u64> = rig.drain().iter().map(|s| s.id).collect();
    assert_eq!(observed_ids, ids);
}

#[test]
fn event_attached_to_current_span() {
    let mut rig = make_cache(10);
    let span = rig.root("root", vec![]);
    let actual_id = rig.actual_id(&span);
    rig.enter(&span);
    rig.event(vec![("message", message("test event happened"))]);
    rig.exit(&span);
    rig.close(&span);
    let collected = rig.drain();
    let record = find_span(&collected, actual_id);
    assert_eq!(record.events.len(), 1);
    assert!(record.events[0].field("message").is_some());
}

#[test]
fn event_dropped_with_no_active_span() {
    let mut rig = make_cache(10);
    rig.event(vec![("message", message("orphan event"))]);
    assert!(rig.drain().is_empty(), "an orphan event must not create a span");
}

#[test]
fn field_capture() {
    let mut rig = make_cache(10);
    let span = rig.root(
        "fields",
        vec![
            ("str_field", text("hello")),
            ("int_field", FieldValue::I64(42)),
            ("bool_field", FieldValue::Bool(true)),
        ],
    );
    let actual_id = rig.actual_id(&span);
    rig.close(&span);
    let collected = rig.drain();
    let record = find_span(&collected, actual_id);
    assert_eq!(span_field(record, "str_field").as_deref(), Some("hello"));
    assert_eq!(span_field(record, "int_field").as_deref(), Some("42"));
    assert_eq!(span_field(record, "bool_field").as_deref(), Some("true"));
}

#[test]
fn record_updates_span_fields_after_creation() {
    let mut rig = make_cache(10);
    let span = rig.root("op", vec![("initial", text("ready"))]);
    let actual_id = rig.actual_id(&span);
    rig.record(&span, "status", text("success"));
    rig.close(&span);
    let collected = rig.drain();
    let record = find_span(&collected, actual_id);
    assert_eq!(span_field(record, "initial").as_deref(), Some("ready"));
    assert_eq!(span_field(record, "status").as_deref(), Some("success"));
}

#[test]
fn multiple_events_recorded_in_order() {
    let mut rig = make_cache(10);
    let span = rig.root("op", vec![]);
    let actual_id = rig.actual_id(&span);
    rig.enter(&span);
    rig.event(vec![("step", text("first"))]);
    rig.event(vec![("step", text("second")), ("note", text("middle"))]);
    rig.event(vec![("step", text("third"))]);
    rig.exit(&span);
    rig.close(&span);
    let collected = rig.drain();
    let record = find_span(&collected, actual_id);
    assert_eq!(record.events.len(), 3);
    let steps: Vec<String> =
        record.events.iter().map(|e| event_field(e, "step").unwrap()).collect();
    assert_eq!(steps, vec!["first", "second", "third"]);
    assert_eq!(event_field(&record.events[1], "note").as_deref(), Some("middle"));
    assert!(record.events[0].recorded_at <= record.events[1].recorded_at);
    assert!(record.events[1].recorded_at <= record.events[2].recorded_at);
}

#[test]
fn sibling_spans_share_parent_actual_id() {
    let mut rig = make_cache(64);
    let root = rig.root("root", vec![]);
    let root_id = rig.actual_id(&root);
    rig.enter(&root);
    let mut sibling_ids = Vec::new();
    for _ in 0..3 {
        let sib = rig.child("child", vec![]);
        sibling_ids.push(rig.actual_id(&sib));
        rig.close(&sib);
    }
    rig.exit(&root);
    rig.close(&root);
    let collected = rig.drain();
    for (i, &sid) in sibling_ids.iter().enumerate() {
        let s = find_span(&collected, sid);
        assert_eq!(s.parent_id, Some(root_id), "sibling #{i} parent_id");
        assert_eq!(s.metadata.name, "child");
    }
}

#[test]
fn level_predicate_filters_below_threshold() {
    let mut rig = Rig::new(SpanCache::with_predicate(10, LevelPredicate::new(WireLevel::Info)));
    assert_eq!(rig.cache.max_level_hint(), Some(WireLevelFilter::Info));
    let info_span = rig.span(ParentOf::Root, WireLevel::Info, "info_op", vec![]);
    assert!(info_span.is_some(), "INFO at INFO threshold");
    let error_span = rig.span(ParentOf::Root, WireLevel::Error, "error_op", vec![]);
    assert!(error_span.is_some(), "ERROR at INFO threshold");
    let debug_span = rig.span(ParentOf::Root, WireLevel::Debug, "debug_op", vec![]);
    assert!(debug_span.is_none(), "DEBUG filtered at INFO threshold");
}

#[test]
fn api_handler_lifecycle() {
    let mut rig = make_cache(20);
    let request =
        rig.root("request", vec![("method", text("GET")), ("path", text("/users/42"))]);
    let request_id = rig.actual_id(&request);
    rig.enter(&request);

    let validate = rig.child("validate", vec![("ok", FieldValue::Bool(true))]);
    rig.enter(&validate);
    rig.event(vec![("message", message("validation passed"))]);
    rig.exit(&validate);
    rig.close(&validate);

    let query = rig.child("db_query", vec![("table", text("users"))]);
    rig.enter(&query);
    rig.event(vec![("message", message("query started"))]);
    rig.event(vec![("message", message("query finished")), ("rows", FieldValue::U64(1))]);
    rig.exit(&query);
    rig.close(&query);

    rig.record(&request, "status", text("200"));
    rig.exit(&request);
    rig.close(&request);

    let pages = rig.drain();
    assert_eq!(pages.len(), 3, "request, validate, db_query all present");

    let request = find_span(&pages, request_id);
    assert_eq!(request.metadata.name, "request");
    assert_eq!(request.parent_id, None);
    assert_eq!(span_field(request, "method").as_deref(), Some("GET"));
    assert_eq!(span_field(request, "path").as_deref(), Some("/users/42"));
    assert_eq!(span_field(request, "status").as_deref(), Some("200"));

    let validate = pages.iter().find(|s| s.metadata.name == "validate").unwrap();
    assert_eq!(validate.parent_id, Some(request_id));
    assert_eq!(span_field(validate, "ok").as_deref(), Some("true"));
    assert_eq!(validate.events.len(), 1);
    assert_eq!(
        event_field(&validate.events[0], "message").as_deref(),
        Some("validation passed"),
    );

    let query = pages.iter().find(|s| s.metadata.name == "db_query").unwrap();
    assert_eq!(query.parent_id, Some(request_id));
    assert_eq!(span_field(query, "table").as_deref(), Some("users"));
    assert_eq!(query.events.len(), 2);
    let messages: Vec<String> =
        query.events.iter().map(|e| event_field(e, "message").unwrap()).collect();
    assert_eq!(messages, vec!["query started", "query finished"]);
    assert_eq!(event_field(&query.events[1], "rows").as_deref(), Some("1"));
}

#[test]
fn public_api_reexports_are_reachable() {
    let _ = DEFAULT_LANE_COUNT;
    let _: Interest = Interest::Always;
    let _ = LevelPredicate::new(WireLevel::Info);
    let cfg = CacheConfig::default();
    let mut rig = Rig::new(SpanCache::with_config(8, cfg));
    let s = rig.root("smoke", vec![]);
    let _id = rig.actual_id(&s);
    rig.close(&s);
    let pages: Vec<SpanRecord> = rig.drain();
    let _: Option<&EventRecord> = pages.first().and_then(|s| s.events.first());
    assert_eq!(pages.len(), 1);
}

#[test]
fn async_instrumented_tasks_with_overlapping_spans() {
    // Two tasks take turns on one thread: a span is entered for as long as
    // its task runs.
    let mut rig = make_cache(64);
    let task_a = rig.root("task_a", vec![]);
    let task_b = rig.root("task_b", vec![]);

    rig.enter(&task_a);
    let acquire = rig.child("acquire", vec![]);
    rig.enter(&acquire);
    rig.exit(&acquire);
    rig.exit(&task_a);

    rig.enter(&task_b);
    let release = rig.child("release", vec![]);
    rig.enter(&release);
    rig.exit(&release);
    rig.close(&release);
    rig.exit(&task_b);
    rig.close(&task_b);

    rig.enter(&task_a);
    rig.enter(&acquire);
    rig.exit(&acquire);
    rig.close(&acquire);
    rig.exit(&task_a);
    rig.close(&task_a);

    let all = rig.drain();
    assert_eq!(all.len(), 4, "task_a, acquire, task_b, release");
    assert!(all.iter().all(|s| s.closed_at.is_some()), "all spans must close");
    let find = |name: &str| all.iter().find(|s| s.metadata.name == name).unwrap();
    let task_a = find("task_a");
    let task_b = find("task_b");
    let acquire = find("acquire");
    let release = find("release");
    assert_eq!(acquire.parent_id, Some(task_a.id), "acquire is child of task_a");
    assert_eq!(release.parent_id, Some(task_b.id), "release is child of task_b");
    assert!(acquire.opened_at < release.closed_at.unwrap());
    assert!(release.opened_at < acquire.closed_at.unwrap());
}

#[test]
fn slots_are_used_again_under_the_same_id() {
    let mut rig = make_cache(16);
    let first = rig.root("first", vec![]);
    let first_actual = rig.actual_id(&first);
    rig.close(&first);
    let second = rig.root("second", vec![]);
    assert_eq!(first.into_u64(), second.into_u64());
    assert_eq!(rig.actual_id(&second), first_actual + 1);
    rig.close(&second);
    // A second close finds nothing.
    assert!(!rig.cache.try_close(&mut rig.thread, &second, 99).0);
    assert_eq!(rig.drain().len(), 2);
}

#[test]
fn explicit_parents_are_found_by_their_id() {
    let mut rig = make_cache(64);
    let root = rig.root("root", vec![]);
    let root_actual = rig.actual_id(&root);
    assert!(rig.cache.has_slot(root.into_u64()));
    let child = rig
        .span(ParentOf::Explicit(root.into_u64()), WireLevel::Info, "child", vec![])
        .unwrap();
    let orphan = rig
        .span(ParentOf::Explicit(DISABLED), WireLevel::Info, "orphan", vec![])
        .unwrap();
    assert_eq!(orphan.into_u64(), DISABLED);
    rig.close(&child);
    rig.close(&root);
    let spans = rig.drain();
    assert_eq!(spans.len(), 2);
    assert_eq!(spans[0].parent_id, Some(root_actual));
}

#[test]
fn enough_closed_spans_ask_to_be_sent() {
    let config = CacheConfig { pending_batch: 2, ..CacheConfig::default() };
    let (mut cache, _driver) = SpanCache::with_config(64, config);
    let mut next_key: u64 = 7;
    let mut thread = ThreadState::register(&mut next_key);
    assert_eq!(thread.shard_key(), 7);
    assert_eq!(next_key, 8);
    let span = Attributes {
        parent: ParentOf::Root,
        metadata: metadata("s", WireLevel::Info),
        fields: vec![],
    };
    let a = cache.new_span(&mut thread, &span, 1);
    let b = cache.new_span(&mut thread, &span, 2);
    assert_eq!(cache.try_close(&mut thread, &a, 3), (true, Pending::Keep));
    assert_eq!(cache.try_close(&mut thread, &b, 4), (true, Pending::Flush));
    let (events, spans) = cache.flush_pending(&mut thread);
    assert_eq!((events.len(), spans.len()), (0, 2));
    let (events, spans) = cache.flush_pending(&mut thread);
    assert_eq!((events.len(), spans.len()), (0, 0));
}

#[test]
fn closed_spans_are_kept_paged_and_forgotten() {
    let mut rig = make_cache(3);
    let mut ids = Vec::new();
    for name in ["a", "b", "c", "d"] {
        let span = rig.root(name, vec![]);
        ids.push(rig.actual_id(&span));
        rig.close(&span);
    }
    for record in rig.drain() {
        rig.cache.commit(record);
    }
    // There is room for three: the oldest went.
    assert!(rig.cache.get_span(ids[0]).is_none());
    assert_eq!(rig.cache.get_span(ids[1]).unwrap().metadata.name, "b");
    let page: Vec<u64> = rig.cache.page(0, 2).iter().map(|s| s.id).collect();
    assert_eq!(page, vec![ids[1], ids[2]]);
    let rest: Vec<u64> = rig.cache.page(ids[2], 10).iter().map(|s| s.id).collect();
    assert_eq!(rest, vec![ids[3]]);
    rig.cache.clear();
    assert!(rig.cache.page(0, 10).is_empty());
}

#[test]
fn handed_back_event_records_come_out_clean() {
    let mut rig = make_cache(16);
    let first = rig.root("first", vec![]);
    rig.enter(&first);
    rig.event(vec![("old", text("left over"))]);
    rig.exit(&first);
    rig.close(&first);
    for record in rig.drain() {
        rig.cache.recycle(record.events);
    }
    let second = rig.root("second", vec![]);
    rig.enter(&second);
    rig.event(vec![("new", FieldValue::U64(7))]);
    rig.exit(&second);
    rig.close(&second);
    let spans = rig.drain();
    assert_eq!(spans[0].events[0].fields.len(), 1);
    assert_eq!(event_field(&spans[0].events[0], "new").as_deref(), Some("7"));
    assert_eq!(spans[0].events[0].metadata().name, "event");
}

#[test]
fn field_values_are_shown_and_searched() {
    let shared = std::sync::Arc::new("shared text".to_string());
    let values = vec![
        (FieldValue::U64(u64::MAX), "18446744073709551615"),
        (FieldValue::I64(-7), "-7"),
        (FieldValue::F64("1.5".to_string()), "1.5"),
        (FieldValue::Bool(false), "false"),
        (FieldValue::Str("fixed"), "fixed"),
        (FieldValue::SmallString(CompactString::from("small")), "small"),
        (FieldValue::SharedString(shared), "shared text"),
        (FieldValue::Owned("owned".to_string()), "owned"),
    ];
    for (value, shown) in &values {
        assert_eq!(value.to_display_string().as_str(), *shown);
        assert_eq!(value.duplicate().to_display_string().as_str(), *shown);
        assert!(value.contains(&shown[1..]));
        assert!(!value.contains("absent"));
    }
}

#[test]
fn chance_decides_on_roots_alone() {
    let pct = |x: f64| Double { bits: x.to_bits() };
    let (full, half, none) = (pct(100.0), pct(50.0), pct(0.0));
    let root = Attributes {
        parent: ParentOf::Root,
        metadata: metadata("r", WireLevel::Info),
        fields: vec![],
    };
    let child = Attributes {
        parent: ParentOf::Context,
        metadata: metadata("c", WireLevel::Info),
        fields: vec![],
    };
    let mut p = ChancePredicate::new(LevelPredicate::new(WireLevel::Trace), half);
    assert!(p.roll_passes(&root, 0));
    assert!(p.roll_passes(&root, (1u64 << 63) - 1024));
    assert!(!p.roll_passes(&root, 1u64 << 63));
    assert!(!p.roll_passes(&root, u64::MAX));
    assert!(p.roll_passes(&child, u64::MAX));
    p.set(none);
    assert!(!p.roll_passes(&root, 0));
    assert!(!p.new_span_enabled(&root));
    assert!(p.new_span_enabled(&child));
    for (asked, held) in [
        (200.0, 100.0),
        (f64::INFINITY, 100.0),
        (-3.0, 0.0),
        (f64::NEG_INFINITY, 0.0),
        (f64::NAN, 0.0),
        (-0.0, -0.0),
        (1e-300, 1e-300),
        (99.999_999_999_999_99, 99.999_999_999_999_99),
    ] {
        p.set(pct(asked));
        assert_eq!(p.get(), pct(held), "{asked}");
    }
    p.set(pct(1e-300));
    assert!(p.roll_passes(&root, 0));
    assert!(!p.roll_passes(&root, 1));
    p.set(pct(200.0));
    assert_eq!(p.get(), full);
    assert!(p.new_span_enabled(&root));
    // Rolls differ: with half a chance, some pass and some do not.
    p.set(half);
    let passed = (0..200).filter(|_| p.new_span_enabled(&root)).count();
    assert!(passed > 0 && passed < 200, "{passed} of 200 passed");
}

#[test]
fn the_level_can_be_changed() {
    let mut p = LevelPredicate::with_filter(WireLevelFilter::Off);
    let info = metadata("m", WireLevel::Info);
    assert!(!p.enabled(&info));
    // The filter may change: every place in the program is asked again.
    assert_eq!(p.callsite_enabled(&info), Interest::Sometimes);
    p.set(WireLevelFilter::Debug);
    assert_eq!(p.get(), WireLevelFilter::Debug);
    assert_eq!(p.max_level_hint(), Some(WireLevelFilter::Debug));
    assert!(p.enabled(&info));
    assert_eq!(p.callsite_enabled(&info), Interest::Sometimes);
    assert!(!p.enabled(&metadata("m", WireLevel::Trace)));
}

#[test]
fn values_keep_their_kind() {
    let mut fields: FieldList = Vec::new();
    set_field(&mut fields, "n", FieldValue::U64(7));
    set_field(&mut fields, "b", FieldValue::Bool(true));
    set_field(&mut fields, "n", FieldValue::I64(7));
    assert_eq!(fields.len(), 2);
    assert_eq!(fields[0].0, "n");
    assert!(matches!(fields[0].1, FieldValue::I64(7)));
    assert!(matches!(fields[1].1, FieldValue::Bool(true)));
    let mut more: FieldList = Vec::new();
    set_fields(&mut more, &fields);
    assert!(matches!(more[0].1, FieldValue::I64(7)));

    let mut rig = make_cache(4);
    let span = rig.root("typed", vec![("n", FieldValue::U64(7)), ("b", FieldValue::Bool(true))]);
    let id = rig.actual_id(&span);
    rig.close(&span);
    for record in rig.drain() {
        rig.cache.commit(record);
    }
    let kept = rig.cache.get_span(id).unwrap();
    assert!(matches!(kept.field("n"), Some(FieldValue::U64(7))));
    let page = rig.cache.page(0, 10);
    assert!(matches!(page[0].field("b"), Some(FieldValue::Bool(true))));
    let base = TimeBase::now(0, 0);
    let wire = span_to_wire(&page[0], base);
    assert!(matches!(wire.fields[0].1, WireFieldValue::U64(7)));
    assert!(matches!(wire.fields[1].1, WireFieldValue::Bool(true)));
}

#[test]
fn the_driver_flushes_by_number_or_by_time() {
    let config = CacheConfig::default();
    assert!(!config.flush_due(0, u64::MAX));
    assert!(!config.flush_due(599, 999_999_999));
    assert!(config.flush_due(600, 0));
    assert!(config.flush_due(1, 1_000_000_000));
}

#[test]
fn ids_are_left_at_first() {
    let rig = make_cache(4);
    assert!(rig.cache.has_ids(&rig.thread));
    assert!(!rig.thread.has_ids(u64::MAX));
}

#[test]
fn event_records_go_back_to_where_they_came_from() {
    let config = CacheConfig { lane_count: 4, ..CacheConfig::default() };
    let (mut cache, mut driver) = SpanCache::with_config(2, config);
    let mut next_key: u64 = 0;
    let mut threads = [ThreadState::register(&mut next_key), ThreadState::register(&mut next_key)];
    let root = Attributes {
        parent: ParentOf::Root,
        metadata: metadata("s", WireLevel::Info),
        fields: vec![],
    };
    let happen = |cache: &mut SpanCache<LevelPredicate>, driver: &mut Driver, t: &mut ThreadState| {
        let span = cache.new_span(t, &root, 1);
        cache.enter(t, &span);
        let event = Event { parent: None, metadata: metadata("e", WireLevel::Info), fields: vec![] };
        cache.event(t, &event, 2);
        cache.exit(t, &span);
        cache.try_close(t, &span, 3);
        let (events, spans) = cache.flush_pending(t);
        let out = driver.drain_sync(events, spans);
        assert_eq!(out[0].events[0].home, Some(t.shard_key() as usize));
        out
    };
    for span in happen(&mut cache, &mut driver, &mut threads[0]) {
        cache.commit(span);
    }
    for span in happen(&mut cache, &mut driver, &mut threads[1]) {
        cache.commit(span);
    }
    assert_eq!((cache.ready_events(0), cache.ready_events(1)), (0, 0));
    // There is room for two spans: the first goes, and its record with it.
    for span in happen(&mut cache, &mut driver, &mut threads[1]) {
        cache.commit(span);
    }
    assert_eq!((cache.ready_events(0), cache.ready_events(1)), (1, 0));
    // A copy goes back to the same shard.
    let copies = cache.page(0, 10);
    for copy in copies {
        cache.recycle(copy.events);
    }
    assert_eq!((cache.ready_events(0), cache.ready_events(1)), (1, 2));
    cache.clear();
    assert_eq!((cache.ready_events(0), cache.ready_events(1)), (1, 4));
    let out = happen(&mut cache, &mut driver, &mut threads[0]);
    assert_eq!((cache.ready_events(0), cache.ready_events(1)), (0, 4));
    for span in out {
        cache.recycle(span.events);
    }
    assert_eq!((cache.ready_events(0), cache.ready_events(1)), (1, 4));
}

#[test]
fn a_span_kept_again_gives_its_events_back() {
    let mut rig = make_cache(8);
    let span = rig.root("s", vec![]);
    rig.enter(&span);
    rig.event(vec![]);
    rig.exit(&span);
    rig.close(&span);
    let record = rig.drain().remove(0);
    let home = record.events[0].home.unwrap() as u64;
    rig.cache.commit(record.duplicate());
    assert_eq!(rig.cache.ready_events(home), 0);
    rig.cache.commit(record);
    assert_eq!(rig.cache.ready_events(home), 1);
}
