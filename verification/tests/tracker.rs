//! Deduplication and completion behaviour of the receiver-side tracker.

use qr_transfer::tracker::{hash_string, Tracker, TrackerError};

#[test]
fn dedup_same_payload_many_times() {
    let mut t = Tracker::new();
    assert!(t.submit("payload".to_string(), 10));
    for i in 0..10u64 {
        assert!(!t.submit("payload".to_string(), 20 + i));
    }
    assert_eq!(t.chunk_count(), 1);
    assert_eq!(t.seen_count(), 1);
}

#[test]
fn distinct_payloads_all_accepted() {
    let mut t = Tracker::new();
    assert!(t.submit("one".to_string(), 1));
    assert!(t.submit("two".to_string(), 2));
    assert!(t.submit("three".to_string(), 3));
    assert_eq!(t.chunk_count(), 3);
    assert_eq!(t.seen_count(), 3);
}

#[test]
fn clock_resets_on_new_chunk_only() {
    let mut t = Tracker::new();
    t.submit("a".to_string(), 1000);
    // A duplicate at 2000 must not reset the clock: still complete at 4001.
    t.submit("a".to_string(), 2000);
    assert!(!t.is_complete(4000));
    assert!(t.is_complete(4001));
}

#[test]
fn empty_tracker_never_completes() {
    let t = Tracker::new();
    assert!(!t.is_complete(0));
    assert!(!t.is_complete(1_000_000_000));
}

#[test]
fn completion_boundary() {
    let mut t = Tracker::new();
    t.submit("a".to_string(), 1000);
    // Clock earlier than the last accepted chunk: not complete.
    assert!(!t.is_complete(500));
    // Within the idle timeout: not complete.
    assert!(!t.is_complete(1000));
    assert!(!t.is_complete(4000));
    // Strictly past it: complete.
    assert!(t.is_complete(4001));
}

#[test]
fn finalize_without_data() {
    let t = Tracker::new();
    assert_eq!(t.finalize(), Err(TrackerError::NoData));
}

#[test]
fn finalize_returns_first_seen_order() {
    let mut t = Tracker::new();
    t.submit("b".to_string(), 1);
    t.submit("a".to_string(), 2);
    t.submit("b".to_string(), 3);
    let chunks = t.finalize().unwrap();
    assert_eq!(chunks, vec!["b".to_string(), "a".to_string()]);
}

#[test]
fn hash_string_deterministic() {
    assert_eq!(hash_string("chunk data"), hash_string("chunk data"));
    assert_eq!(hash_string(""), hash_string(""));
}
