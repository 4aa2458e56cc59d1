use mqtop::stats::Stats;

#[test]
fn test_record_message() {
    let mut stats = Stats::new(10);

    stats.record_message(100);
    stats.record_message(200);

    assert_eq!(stats.total_messages(), 2);
    assert_eq!(stats.total_bytes(), 300);
}

#[test]
fn test_rate_calculation() {
    let mut stats = Stats::new(1);

    for _ in 0..10 {
        stats.record_message(50);
    }

    let count = stats.window_count();
    assert!(count > 0, "Rate should be positive");
}

#[test]
fn test_format_bytes() {
    assert_eq!(Stats::format_bytes(500), "500 B");
    assert_eq!(Stats::format_bytes(1536), "1.50 KB");
    assert_eq!(Stats::format_bytes(1_572_864), "1.50 MB");
    assert_eq!(Stats::format_bytes(1_610_612_736), "1.50 GB");
}

#[test]
fn test_uptime_string() {
    let stats = Stats::new(10);
    let uptime = stats.uptime_string();
    assert!(!uptime.is_empty());
}

#[test]
fn test_reset() {
    let mut stats = Stats::new(10);

    stats.record_message(100);
    stats.record_message(100);

    assert_eq!(stats.total_messages(), 2);

    stats.reset();

    assert_eq!(stats.total_messages(), 0);
    assert_eq!(stats.total_bytes(), 0);
}

#[test]
fn window_rate_rises_then_decays() {
    let mut stats = Stats::new_at(10, 0);
    for _ in 0..5 {
        stats.record_message_at(1000, 20);
    }
    // immediately after: 5 messages, 100 bytes in a 10 s window
    assert_eq!(stats.window_count_at(1000), 5);
    assert_eq!(stats.window_bytes_at(1000), 100);
    // the window start is included
    assert_eq!(stats.window_count_at(11_000), 5);
    // past the window nothing counts
    assert_eq!(stats.window_count_at(11_001), 0);
    assert_eq!(stats.window_bytes_at(20_000), 0);
    // a later record prunes the old arrivals
    stats.record_message_at(30_000, 1);
    assert_eq!(stats.message_times.len(), 1);
    assert_eq!(stats.total_messages(), 6);
}

#[test]
fn uptime_texts() {
    let stats = Stats::new_at(10, 0);
    assert_eq!(stats.uptime_string_at(59_999), "59s");
    assert_eq!(stats.uptime_string_at(61_000), "1m 1s");
    assert_eq!(stats.uptime_string_at(3_720_000), "1h 2m");
    assert_eq!(stats.uptime_at(-5), 0);
    assert_eq!(Stats::format_bytes(0), "0 B");
    assert_eq!(Stats::format_bytes(1023), "1023 B");
    assert_eq!(Stats::format_bytes(1024), "1.00 KB");
}
