use mqtop::json::parse_json;
use mqtop::metric_tracker::{extract_numeric, render_sparkline, MetricTracker, TrackedMetric};
use mqtop::number::parse_milli;

#[test]
fn test_extract_numeric() {
    let json = parse_json(br#"{"W": 1500, "data": {"power": 1234.5}, "string_num": "42.5"}"#).unwrap();

    assert_eq!(extract_numeric(&json, "W"), Some(1_500_000));
    assert_eq!(extract_numeric(&json, "data.power"), Some(1_234_500));
    assert_eq!(extract_numeric(&json, "string_num"), Some(42_500));
    assert_eq!(extract_numeric(&json, "nonexistent"), None);
}

#[test]
fn test_metric_tracking() {
    let mut tracker = MetricTracker::new(100).unwrap();
    tracker.track("Power".to_string(), "telemetry/#".to_string(), "W".to_string());

    let payload = br#"{"W": 1500, "V": 230}"#;
    tracker.process_message("telemetry/device1/meter", payload);

    let metric = tracker.get_metric("Power").unwrap();
    assert_eq!(metric.latest().map(|v| v as f64 / 1000.0), Some(1500.0));
    assert_eq!(metric.count, 1);
}

#[test]
fn end_to_end_power_series() {
    let mut tracker = MetricTracker::new(100).unwrap();
    tracker.track("Power".to_string(), "telemetry/+/meter".to_string(), "W".to_string());
    for w in [&br#"{"W": 1500}"#[..], br#"{"W": 1450}"#, br#"{"W": 1600}"#] {
        tracker.process_message("telemetry/d1/meter", w);
    }
    let m = tracker.get_metric("Power").unwrap();
    assert_eq!(m.min, 1_450_000);
    assert_eq!(m.max, 1_600_000);
    assert_eq!(m.sum, 4_550_000);
    assert_eq!(m.count, 3);
    assert_eq!(m.latest(), Some(1_600_000));
    assert_eq!(m.avg(), Some(1_516_666));
}

#[test]
fn non_matching_and_unresolvable_are_skipped() {
    let mut tracker = MetricTracker::new(2).unwrap();
    tracker.track("A".to_string(), "a/+".to_string(), "v".to_string());
    tracker.process_message("b/x", br#"{"v": 1}"#);
    tracker.process_message("a/x", br#"{"w": 1}"#);
    tracker.process_message("a/x", br#"{"v": true}"#);
    tracker.process_message("a/x", b"garbage");
    assert_eq!(tracker.get_metric("A").unwrap().count, 0);
    for v in 1..=3 {
        tracker.process_json("a/x", &parse_json(format!("{{\"v\": {}}}", v).as_bytes()).unwrap(), v);
    }
    let m = tracker.get_metric("A").unwrap();
    assert_eq!(m.data.len(), 2);
    assert_eq!(m.data[0], (2, 2000));
    assert_eq!(m.count, 3);
    assert!(MetricTracker::new(0).is_none());
    assert!(tracker.has_metrics());
    tracker.untrack("A");
    assert!(!tracker.has_metrics());
    assert!(tracker.get_metrics().is_empty());
}

#[test]
fn sparkline_scaling() {
    let mut m = TrackedMetric::new("l".to_string(), "#".to_string(), "v".to_string());
    for (i, v) in [0i64, 250, 500, 750, 1000].iter().enumerate() {
        m.record_at(*v, 100, i as i64);
    }
    assert_eq!(m.sparkline_data(5), vec![0, 250, 500, 750, 1000]);
    assert_eq!(m.sparkline_data(2), vec![0, 500]);
    assert_eq!(m.sparkline_data(0), Vec::<u64>::new());
    // a series shorter than the width is spread over it
    assert_eq!(
        m.sparkline_data(10),
        vec![0, 0, 250, 250, 500, 500, 750, 750, 1000, 1000]
    );
    let mut flat = TrackedMetric::new("f".to_string(), "#".to_string(), "v".to_string());
    assert_eq!(flat.sparkline_data(4), vec![0, 0, 0, 0]);
    flat.record_at(7, 100, 0);
    flat.record_at(7, 100, 1);
    assert_eq!(flat.sparkline_data(5), vec![0, 0, 0, 0, 0]);
    assert_eq!(flat.sparkline_data(1), vec![0]);
}

#[test]
fn fixed_point_parsing() {
    assert_eq!(parse_milli("42"), Some(42_000));
    assert_eq!(parse_milli("-1.5"), Some(-1_500));
    assert_eq!(parse_milli("+0.1239"), Some(123));
    assert_eq!(parse_milli(".5"), Some(500));
    assert_eq!(parse_milli("5."), Some(5_000));
    assert_eq!(parse_milli("."), None);
    assert_eq!(parse_milli(""), None);
    assert_eq!(parse_milli("-"), None);
    assert_eq!(parse_milli("1e3"), Some(1_000_000));
    assert_eq!(parse_milli("2.5E-1"), Some(250));
    assert_eq!(parse_milli("-1.5e+1"), Some(-15_000));
    assert_eq!(parse_milli("1e-4"), Some(0));
    assert_eq!(parse_milli("125e-5"), Some(1));
    assert_eq!(parse_milli("1e30"), None);
    assert_eq!(parse_milli("0e999999999999999999999999"), Some(0));
    assert_eq!(parse_milli("7e-999999999999999999999999"), Some(0));
    assert_eq!(parse_milli("1e"), None);
    assert_eq!(parse_milli("e3"), None);
    assert_eq!(parse_milli("1e3.5"), None);
    assert_eq!(parse_milli("1.2.3"), None);
    assert_eq!(parse_milli("99999999999999999999"), None);
    assert_eq!(parse_milli("9223372036854775.807"), Some(i64::MAX));
}

#[test]
fn test_get_numeric_fields() {
    let json = parse_json(br#"{"W": 1500, "V": 230.5, "type": "meter", "data": {"power": 1234}}"#).unwrap();

    let fields = mqtop::metric_tracker::get_numeric_fields(&json);
    assert!(fields.iter().any(|(k, _)| k == "W"));
    assert!(fields.iter().any(|(k, _)| k == "V"));
    assert!(fields.iter().any(|(k, _)| k == "data.power"));
    assert!(!fields.iter().any(|(k, _)| k == "type"));
    assert!(fields.iter().any(|(k, v)| k == "V" && *v == 230_500));
}

#[test]
fn test_sparkline() {
    let data: Vec<u64> = vec![0, 250, 500, 750, 1000];
    let sparkline = render_sparkline(&data, 5);
    assert_eq!(sparkline.chars().count(), 5);
    assert_eq!(sparkline, "▁▃▅▆█");
}

#[test]
fn sparkline_padding_and_empty() {
    assert_eq!(render_sparkline(&[], 3), "───");
    assert_eq!(render_sparkline(&[1000], 3), "█──");
    assert_eq!(render_sparkline(&[0, 1000, 0, 1000], 2), "▁▁");
    assert_eq!(render_sparkline(&[500], 0), "");
}

#[test]
fn exponent_strings_feed_series() {
    let mut tracker = MetricTracker::new(10).unwrap();
    tracker.track("X".to_string(), "#".to_string(), "v".to_string());
    tracker.process_message("t", br#"{"v": "1e3"}"#);
    tracker.process_message("t", br#"{"v": 2.5e-1}"#);
    let m = tracker.get_metric("X").unwrap();
    assert_eq!(m.count, 2);
    assert_eq!(m.max, 1_000_000);
    assert_eq!(m.min, 250);
}
