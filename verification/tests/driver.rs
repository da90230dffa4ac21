//! How events find their spans.

use tracing_console::cache::driver::{
    keeps_subscriber, Driver, DriverInput, EventMessage, SendOutcome, SideEvents,
};
use tracing_console::cache::record::{EventRecord, Metadata, SpanRecord};
use tracing_console::protocol::WireLevel;
use tracing_console::sorted::SortedMap;

fn test_metadata() -> Metadata {
    Metadata {
        name: "test".to_string(),
        target: "test".to_string(),
        level: WireLevel::Info,
    }
}

fn make_event(parent_id: u64) -> EventMessage {
    EventMessage {
        parent_actual_id: parent_id,
        record: EventRecord {
            metadata: Some(test_metadata()),
            fields: Vec::new(),
            recorded_at: Some(1),
            home: Some(3),
        },
    }
}

fn make_span(id: u64) -> SpanRecord {
    SpanRecord {
        id,
        parent_id: None,
        metadata: test_metadata(),
        fields: Vec::new(),
        events: Vec::new(),
        opened_at: 1,
        closed_at: Some(2),
    }
}

fn bucket_len(side: &SideEvents, parent_id: u64) -> Option<usize> {
    side.get(&parent_id).map(Vec::len)
}

fn ids(side: &SideEvents) -> Vec<u64> {
    (0..side.len()).map(|i| *side.key_at(i)).collect()
}

#[test]
fn event_orphan_below_capacity_stashes_for_parent() {
    let mut side: SideEvents = SortedMap::new();
    Driver::flush_event_batch(&mut side, 8, vec![make_event(99), make_event(99)]);
    assert_eq!(bucket_len(&side, 99), Some(2));
    Driver::flush_span_batch(&mut side, vec![make_span(99)]);
    assert_eq!(side.len(), 0, "side bucket for 99 must drain on span arrival");
}

#[test]
fn span_arrival_attaches_parked_events_to_fanout() {
    let mut side: SideEvents = SortedMap::new();
    Driver::flush_event_batch(&mut side, 8, vec![make_event(99), make_event(99)]);
    let out = Driver::flush_span_batch(&mut side, vec![make_span(99)]);
    let span = out.first().unwrap();
    assert_eq!(span.id, 99);
    assert_eq!(span.events.len(), 2);
}

#[test]
fn event_orphan_at_capacity_evicts_oldest_parent_id() {
    const CAP: usize = 4;
    let mut side: SideEvents = SortedMap::new();
    let mut fill: Vec<EventMessage> = Vec::new();
    for parent in [10u64, 20, 30, 40] {
        fill.push(make_event(parent));
    }
    Driver::flush_event_batch(&mut side, CAP, fill);
    assert_eq!(side.len(), CAP);
    assert_eq!(ids(&side), vec![10, 20, 30, 40]);

    Driver::flush_event_batch(&mut side, CAP, vec![make_event(999)]);
    assert_eq!(ids(&side), vec![20, 30, 40, 999], "smallest id must be evicted");
    assert_eq!(bucket_len(&side, 999), Some(1));
    assert!(bucket_len(&side, 10).is_none());
}

#[test]
fn event_orphan_at_capacity_grows_existing_parent_without_eviction() {
    const CAP: usize = 2;
    let mut side: SideEvents = SortedMap::new();
    Driver::flush_event_batch(&mut side, CAP, vec![make_event(1), make_event(2)]);
    assert_eq!(side.len(), CAP);
    assert_eq!(bucket_len(&side, 1), Some(1));

    Driver::flush_event_batch(&mut side, CAP, vec![make_event(1), make_event(1)]);
    assert_eq!(side.len(), CAP);
    assert_eq!(bucket_len(&side, 1), Some(3));
    assert_eq!(bucket_len(&side, 2), Some(1));
}

#[test]
fn event_orphan_appends_to_existing_parent_below_capacity() {
    const CAP: usize = 8;
    let mut side: SideEvents = SortedMap::new();
    Driver::flush_event_batch(
        &mut side,
        CAP,
        vec![make_event(7), make_event(7), make_event(7)],
    );
    assert_eq!(side.len(), 1);
    assert_eq!(bucket_len(&side, 7), Some(3));
}

#[test]
fn event_orphan_eviction_drops_entire_bucket_not_just_one_event() {
    const CAP: usize = 2;
    let mut side: SideEvents = SortedMap::new();
    Driver::flush_event_batch(
        &mut side,
        CAP,
        vec![make_event(1), make_event(1), make_event(1), make_event(2)],
    );
    assert_eq!(bucket_len(&side, 1), Some(3));

    Driver::flush_event_batch(&mut side, CAP, vec![make_event(7)]);
    assert_eq!(ids(&side), vec![2, 7]);
    assert!(bucket_len(&side, 1).is_none());
}

#[test]
fn driver_runs_until_both_sides_are_closed() {
    let mut driver = Driver::new(4);
    assert!(driver.step(DriverInput::Events(vec![make_event(5)])).is_empty());
    let out = driver.step(DriverInput::Spans(vec![make_span(4), make_span(5)]));
    let events: Vec<usize> = out.iter().map(|s| s.events.len()).collect();
    assert_eq!(events, vec![0, 1]);
    assert!(driver.step(DriverInput::SpansClosed).is_empty());
    assert!(!driver.is_done());
    assert!(driver.step(DriverInput::EventsClosed).is_empty());
    assert!(driver.is_done());
}

#[test]
fn only_a_closed_watcher_is_given_up() {
    assert!(keeps_subscriber(SendOutcome::Sent));
    assert!(keeps_subscriber(SendOutcome::Full));
    assert!(!keeps_subscriber(SendOutcome::Closed));
}

#[test]
fn events_without_room_are_given_back() {
    let mut driver = Driver::new(2);
    driver.step(DriverInput::Events(vec![make_event(1), make_event(1), make_event(2)]));
    assert!(driver.take_lost().is_empty());
    driver.step(DriverInput::Events(vec![make_event(3)]));
    let lost = driver.take_lost();
    assert_eq!(lost.len(), 2);
    assert!(lost.iter().all(|e| e.home == Some(3)));
    assert!(driver.take_lost().is_empty());
    let out = driver.drain_sync(vec![make_event(4)], vec![make_span(2), make_span(3)]);
    assert_eq!(out.iter().map(|s| s.events.len()).collect::<Vec<_>>(), vec![0, 1]);
    assert_eq!(driver.take_lost().len(), 1);
}
