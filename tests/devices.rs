use mqtop::device_tracker::{extract_device_id, extract_device_type, DeviceHealth, DeviceTracker, HealthStatus};

#[test]
fn test_extract_device_id() {
    assert_eq!(
        extract_device_id("telemetry/zap-0000d8c467e385a0/meter/zap/json"),
        Some("zap-0000d8c467e385a0".to_string())
    );
    assert_eq!(extract_device_id("devices/dev123/status"), Some("dev123".to_string()));
    assert_eq!(
        extract_device_id("sites/site1/devices/dev456/telemetry"),
        Some("dev456".to_string())
    );
    assert_eq!(extract_device_id("random/topic"), None);
}

#[test]
fn test_extract_device_type() {
    assert_eq!(
        extract_device_type("telemetry/zap-0000d8c467e385a0/meter/zap/json"),
        Some("meter".to_string())
    );
    assert_eq!(
        extract_device_type("telemetry/dev123/inverter/data"),
        Some("inverter".to_string())
    );
}

#[test]
fn test_device_tracking() {
    let mut tracker = DeviceTracker::new();

    tracker.process_message("telemetry/device1/meter/zap/json", 100);
    tracker.process_message("telemetry/device1/meter/zap/json", 150);
    tracker.process_message("telemetry/device2/inverter/data", 200);

    assert_eq!(tracker.device_count(), 2);

    let devices = tracker.get_devices();
    assert_eq!(devices.len(), 2);

    let device1 = devices.iter().find(|d| d.device_id == "device1").unwrap();
    assert_eq!(device1.message_count, 2);
    assert_eq!(device1.device_type, Some("meter".to_string()));
    assert_eq!(device1.last_payload_size, 150);
}

#[test]
fn test_health_status() {
    let mut tracker = DeviceTracker::new();

    for _ in 0..10 {
        tracker.process_message("telemetry/device1/meter/data", 100);
    }

    let devices = tracker.get_devices();
    let device = devices.iter().find(|d| d.device_id == "device1").unwrap();
    assert_eq!(device.status, HealthStatus::Healthy);
}

#[test]
fn classification_over_time() {
    let mut tracker = DeviceTracker::new();
    tracker.process_message_at("devices/d/x", 1, 0);
    // one message in a 60 s window is exactly one per minute: healthy
    assert_eq!(tracker.count_by_status(), (1, 0, 0, 0));
    // 100 s later the window is empty, but the device was active: warning
    tracker.update_all_statuses_at(100_000);
    assert_eq!(tracker.count_by_status(), (0, 1, 0, 0));
    // past 300 s of silence: stale
    tracker.update_all_statuses_at(300_001);
    assert_eq!(tracker.count_by_status(), (0, 0, 1, 0));
    // a topic that names no device is ignored
    tracker.process_message_at("random/topic", 1, 0);
    assert_eq!(tracker.device_count(), 1);
    // topics are kept once each, in first-seen order
    tracker.process_message_at("devices/d/y", 1, 300_002);
    tracker.process_message_at("devices/d/x", 1, 300_003);
    let d = tracker.get_devices()[0];
    assert_eq!(d.topics, vec!["devices/d/x".to_string(), "devices/d/y".to_string()]);
    assert_eq!(d.device_type, None);
}

#[test]
fn devices_sorted_by_last_seen() {
    let mut tracker = DeviceTracker::new();
    tracker.process_message_at("devices/a/x", 1, 10);
    tracker.process_message_at("devices/b/x", 1, 30);
    tracker.process_message_at("devices/c/x", 1, 20);
    let ids: Vec<&str> = tracker.get_devices().iter().map(|d| d.device_id.as_str()).collect();
    assert_eq!(ids, vec!["b", "c", "a"]);
}

#[test]
fn last_seen_texts() {
    let d = DeviceHealth::new_at("d".to_string(), 0);
    assert_eq!(d.last_seen_string_at(5_000), "5s ago");
    assert_eq!(d.last_seen_string_at(125_000), "2m ago");
    assert_eq!(d.last_seen_string_at(7_200_000), "2h ago");
    assert_eq!(d.time_since_last_at(-1), 0);
    assert_eq!(d.status, HealthStatus::Unknown);
}
