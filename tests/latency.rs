use mqtop::json::parse_json;
use mqtop::latency_tracker::{isqrt, payload_latency_at, LatencyTracker};

#[test]
fn test_format_duration() {
    assert_eq!(LatencyTracker::format_duration(50), "50ms");
    assert_eq!(LatencyTracker::format_duration(1500), "1.5s");
    assert_eq!(LatencyTracker::format_duration(90_000), "1.5m");
}

#[test]
fn test_inter_arrival_tracking() {
    let mut tracker = LatencyTracker::new(10).unwrap();

    tracker.record_message_at(b"{}", 1000);
    tracker.record_message_at(b"{}", 1010);
    tracker.record_message_at(b"{}", 1030);

    assert_eq!(tracker.inter_arrival_count, 2);
    assert_eq!(tracker.avg_inter_arrival(), Some(15));
    assert_eq!(tracker.min_inter_arrival, 10);
    assert_eq!(tracker.max_inter_arrival, 20);
}

#[test]
fn test_payload_latency() {
    let mut tracker = LatencyTracker::new(10).unwrap();

    let now_millis = chrono::Utc::now().timestamp_millis();
    let payload = format!(r#"{{"timestamp": {}}}"#, now_millis - 100);

    tracker.record_message(payload.as_bytes());

    assert_eq!(tracker.payload_latency_count, 1);
    let latency = tracker.avg_payload_latency().unwrap();
    assert!(latency >= 50 && latency < 500);
}

#[test]
fn embedded_time_forms() {
    let now: i64 = 1_700_000_000_000;
    let j = |s: &str| parse_json(s.as_bytes()).unwrap();
    // milliseconds
    assert_eq!(payload_latency_at(&j(r#"{"timestamp": 1699999999000}"#), now), Some(1000));
    // seconds
    assert_eq!(payload_latency_at(&j(r#"{"ts": 1699999990}"#), now), Some(10_000));
    // a numeric string is taken as milliseconds
    assert_eq!(payload_latency_at(&j(r#"{"time": "1699999999500"}"#), now), Some(500));
    // field priority: timestamp before t
    assert_eq!(payload_latency_at(&j(r#"{"t": 1699999999999, "timestamp": 1699999999000}"#), now), Some(1000));
    // future, an hour or more, non-integer, absent: discarded
    assert_eq!(payload_latency_at(&j(r#"{"t": 1700000000001}"#), now), None);
    assert_eq!(payload_latency_at(&j(r#"{"t": 1699996400000}"#), now), None);
    assert_eq!(payload_latency_at(&j(r#"{"t": 1.5}"#), now), None);
    assert_eq!(payload_latency_at(&j(r#"{"t": "soon"}"#), now), None);
    assert_eq!(payload_latency_at(&j(r#"{"x": 1}"#), now), None);
    assert_eq!(payload_latency_at(&j(r#"[1]"#), now), None);
}

#[test]
fn jitter_and_high_latency() {
    let mut tracker = LatencyTracker::new(10).unwrap();
    tracker.record_arrival_at(0);
    assert_eq!(tracker.jitter(), None);
    tracker.record_arrival_at(10);
    assert_eq!(tracker.jitter(), None);
    tracker.record_arrival_at(40);
    // gaps 10 and 30: population deviation 10
    assert_eq!(tracker.jitter(), Some(10));
    assert!(!tracker.has_high_latency());
    tracker.record_latency(5001);
    assert!(tracker.has_high_latency());
    assert_eq!(tracker.recent_payload_latencies().len(), 1);
    assert_eq!(tracker.recent_inter_arrivals().len(), 2);
    assert!(LatencyTracker::new(0).is_none());
    assert_eq!(isqrt(99), 9);
    assert_eq!(isqrt(100), 10);
    assert_eq!(isqrt(u128::MAX), u64::MAX);
}

#[test]
fn samples_are_capped() {
    let mut tracker = LatencyTracker::new(2).unwrap();
    for t in [0, 5, 15, 30] {
        tracker.record_arrival_at(t);
    }
    let gaps: Vec<u64> = tracker.recent_inter_arrivals().iter().copied().collect();
    assert_eq!(gaps, vec![10, 15]);
    assert_eq!(tracker.inter_arrival_count, 3);
}
