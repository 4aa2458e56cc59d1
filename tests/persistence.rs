use mqtop::persistence::UserData;

#[test]
fn test_toggle_star() {
    let mut data = UserData::default();

    assert!(!data.is_starred("test/topic"));

    let starred = data.toggle_star("test/topic");
    assert!(starred);
    assert!(data.is_starred("test/topic"));

    let starred = data.toggle_star("test/topic");
    assert!(!starred);
    assert!(!data.is_starred("test/topic"));
}

#[test]
fn device_stars_and_saved_metrics() {
    let mut data = UserData::new();
    assert!(data.toggle_device_star("d1"));
    assert!(data.is_device_starred("d1"));
    assert!(!data.is_starred("d1"));
    data.add_tracked_metric("a/#".to_string(), "v".to_string(), "L".to_string());
    data.add_tracked_metric("b/#".to_string(), "w".to_string(), "M".to_string());
    data.add_tracked_metric("c/#".to_string(), "x".to_string(), "L".to_string());
    let labels: Vec<&str> = data.tracked_metrics.iter().map(|m| m.label.as_str()).collect();
    assert_eq!(labels, vec!["M", "L"]);
    assert_eq!(data.tracked_metrics[1].topic_pattern, "c/#");
    data.remove_tracked_metric("M");
    assert_eq!(data.tracked_metrics.len(), 1);
}
