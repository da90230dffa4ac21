//! The rate at which spans come in.

use tracing_console::model::rate::{RateTracker, BUCKETS, BUCKET_NS};

const START: u64 = 77_000;

fn hz(rt: &RateTracker) -> f64 {
    f64::from_bits(rt.rate_hz().bits)
}

#[test]
fn rate_tracker_is_zero_before_any_sample() {
    let rt = RateTracker::default();
    assert_eq!(hz(&rt), 0.0);
}

#[test]
fn rate_tracker_excludes_active_bucket_then_rolls_it_in_after_advance() {
    let mut rt = RateTracker::default();
    for _ in 0..8 {
        rt.record(START);
    }
    assert_eq!(hz(&rt), 0.0);
    rt.record(START + 500_000_000);
    // The completed half seconds span four seconds.
    let expected = 8.0 / ((BUCKETS - 1) as f64 * BUCKET_NS as f64 / 1e9);
    assert!((hz(&rt) - expected).abs() < 1e-9, "rate={} expected={expected}", hz(&rt));
}

#[test]
fn rate_tracker_drops_old_samples_after_full_window() {
    let mut rt = RateTracker::default();
    for _ in 0..10 {
        rt.record(START);
    }
    rt.record(START + 5_000_000_000);
    assert_eq!(hz(&rt), 0.0);
}

#[test]
fn a_clock_that_stands_still_is_no_trouble() {
    let mut rt = RateTracker::new();
    rt.record(START);
    rt.record(0);
    rt.record(START + BUCKET_NS);
    assert_eq!(hz(&rt), 0.5);
}

#[test]
fn a_long_pause_empties_the_window() {
    let mut rt = RateTracker::new();
    rt.record(START);
    rt.record(START + 100_000_000_000);
    assert_eq!(hz(&rt), 0.0);
    rt.record(START + 100_500_000_000);
    assert_eq!(hz(&rt), 0.25);
    rt.record(START + 101_000_000_000);
    assert_eq!(hz(&rt), 0.5);
}
