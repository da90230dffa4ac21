//! Statistics as they are printed.

use tracing_console::model::update::Update;
use tracing_console::protocol::{WireLevel, WireLevelFilter, WireSpan};
use tracing_console::stats::StatsAccumulator;

fn span(id: u64, parent_id: Option<u64>, name: &str, closed: Option<u64>) -> WireSpan {
    WireSpan {
        id,
        parent_id,
        name: name.to_string(),
        target: "test".to_string(),
        level: WireLevel::Info,
        fields: Vec::new(),
        events: Vec::new(),
        opened_at_ns: 0,
        closed_at_ns: closed,
    }
}

#[test]
fn nothing_yet_is_said_in_two_lines() {
    let mut acc = StatsAccumulator::new(8);
    assert_eq!(
        acc.flush("0.00"),
        vec![
            "=== stats @ 0.00s — 0 buffered (0 spans/s, recv=0) [disconnected] ===",
            "  (no renderable spans in buffer; received=0 dropped_open=0)",
        ],
    );
    acc.absorb(Update::Disconnected("connect failed: refused".to_string()), 0);
    acc.absorb(Update::SpanReceived(span(1, None, "open", None)), 0);
    acc.absorb(Update::RequestCacheLevel(WireLevelFilter::Off), 0);
    assert_eq!(
        acc.flush("1.25"),
        vec![
            "=== stats @ 1.25s — 0 buffered (0 spans/s, recv=1) [connect failed: refused] ===",
            "  (no renderable spans in buffer; received=1 dropped_open=1)",
        ],
    );
}

#[test]
fn rows_are_printed_as_a_table() {
    let mut acc = StatsAccumulator::new(8);
    acc.absorb(Update::Connected, 0);
    acc.absorb(Update::SpanReceived(span(1, None, "request", Some(2_500_000))), 0);
    acc.absorb(Update::SpanReceived(span(2, Some(1), "query", Some(1_500))), 0);
    let lines = acc.flush("2.00");
    assert_eq!(lines[0], "=== stats @ 2.00s — 2 buffered (0 spans/s, recv=2) [connected] ===");
    assert_eq!(
        lines[1],
        format!(
            "  {:<20}  {:>7}  │ {:^25} │ {:^25}",
            "stack", "n", "total (min · avg · max)", "self  (min · avg · max)",
        ),
    );
    assert_eq!(
        lines[2],
        format!(
            "  {:<20}  {:>7}  │ {:>7} {:>7} {:>7} │ {:>7} {:>7} {:>7}",
            "request", 1, "2.5ms", "2.5ms", "2.5ms", "2.5ms", "2.5ms", "2.5ms",
        ),
    );
    assert_eq!(
        lines[3],
        format!(
            "  {:<20}  {:>7}  │ {:>7} {:>7} {:>7} │ {:>7} {:>7} {:>7}",
            "└─ query", 1, "1.5µs", "1.5µs", "1.5µs", "1.5µs", "1.5µs", "1.5µs",
        ),
    );
    assert_eq!(lines.len(), 4);
}

#[test]
fn long_stacks_widen_their_column() {
    let mut acc = StatsAccumulator::new(8);
    let name = "a_name_of_more_than_twenty_characters";
    acc.absorb(Update::SpanReceived(span(1, None, name, Some(1))), 0);
    let lines = acc.flush("0.10");
    assert!(lines[1].starts_with(&format!("  {:<37}  {:>7}  │", "stack", "n")));
    assert!(lines[2].starts_with(&format!("  {name}  {:>7}  │", 1)));
}

#[test]
fn the_rate_is_printed_in_whole_spans() {
    let mut acc = StatsAccumulator::new(64);
    for i in 0..10 {
        acc.absorb(Update::SpanReceived(span(i + 1, None, "s", Some(5))), 1_000);
    }
    acc.absorb(Update::Status("waiting".to_string()), 1_000);
    // Ten spans over four seconds are two and a half, and a half goes to the
    // even neighbour.
    acc.absorb(Update::SpanReceived(span(99, None, "s", Some(5))), 500_001_000);
    assert!(acc.flush("0.50")[0].contains("(2 spans/s, recv=11) [waiting]"));
}
