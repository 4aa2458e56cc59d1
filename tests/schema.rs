use mqtop::json::parse_json;
use mqtop::schema_tracker::{ChangeType, FieldType, Schema, SchemaTracker};

#[test]
fn test_schema_extraction() {
    let json = parse_json(br#"{"name": "test", "value": 42, "active": true, "data": {"nested": "value"}}"#)
        .unwrap();

    let schema = Schema::from_json(&json);

    assert_eq!(schema.get("name"), Some(FieldType::String));
    assert_eq!(schema.get("value"), Some(FieldType::Number));
    assert_eq!(schema.get("active"), Some(FieldType::Boolean));
    assert_eq!(schema.get("data"), Some(FieldType::Object));
    assert_eq!(schema.get("data.nested"), Some(FieldType::String));
}

#[test]
fn test_schema_change_detection() {
    let mut tracker = SchemaTracker::new();

    let payload1 = br#"{"name": "test", "value": 42}"#;
    let changes1 = tracker.process_message("topic/test", payload1);
    assert!(changes1.is_empty());

    let payload2 = br#"{"name": "other", "value": 100}"#;
    let changes2 = tracker.process_message("topic/test", payload2);
    assert!(changes2.is_empty());

    let payload3 = br#"{"name": "test", "value": 42, "new_field": "hello"}"#;
    let changes3 = tracker.process_message("topic/test", payload3);
    assert_eq!(changes3.len(), 1);
    assert_eq!(changes3[0].change_type, ChangeType::FieldAdded);
    assert_eq!(changes3[0].field_path, "new_field");
}

#[test]
fn test_type_change_detection() {
    let mut tracker = SchemaTracker::new();

    let payload1 = br#"{"value": 42}"#;
    tracker.process_message("topic/test", payload1);

    let payload2 = br#"{"value": "forty-two"}"#;
    let changes = tracker.process_message("topic/test", payload2);

    assert_eq!(changes.len(), 1);
    assert_eq!(changes[0].change_type, ChangeType::TypeChanged);
    assert_eq!(changes[0].old_type, Some(FieldType::Number));
    assert_eq!(changes[0].new_type, Some(FieldType::String));
}

#[test]
fn arrays_contribute_their_first_element() {
    let json = parse_json(br#"{"list": [{"x": null}, {"y": 1}], "e": []}"#).unwrap();
    let schema = Schema::from_json(&json);
    assert_eq!(schema.get("list"), Some(FieldType::Array));
    assert_eq!(schema.get("list[0]"), Some(FieldType::Object));
    assert_eq!(schema.get("list[0].x"), Some(FieldType::Null));
    assert_eq!(schema.get("list[0].y"), None);
    assert_eq!(schema.get("e"), Some(FieldType::Array));
    assert_eq!(schema.field_count(), 4);
    let top = Schema::from_json(&parse_json(b"[1]").unwrap());
    assert_eq!(top.get("[0]"), Some(FieldType::Number));
    assert_eq!(top.field_count(), 1);
}

#[test]
fn removal_history_and_non_json() {
    let mut tracker = SchemaTracker::new();
    tracker.process_json("t", &parse_json(br#"{"a": 1, "b": 2}"#).unwrap(), 1000);
    let changes = tracker.process_json("t", &parse_json(br#"{"a": 1}"#).unwrap(), 2000);
    assert_eq!(changes.len(), 1);
    assert_eq!(changes[0].change_type, ChangeType::FieldRemoved);
    assert_eq!(changes[0].field_path, "b");
    assert_eq!(changes[0].old_type, Some(FieldType::Number));
    assert_eq!(changes[0].new_type, None);
    assert_eq!(changes[0].topic, "t");
    assert_eq!(changes[0].timestamp, 2000);
    assert_eq!(tracker.recent_changes().len(), 1);
    assert!(tracker.has_recent_changes_at(2500, 1));
    assert!(!tracker.has_recent_changes_at(3000, 1));
    // a non-JSON payload changes nothing
    let none = tracker.process_message("t", b"not json");
    assert!(none.is_empty());
    assert_eq!(tracker.get_schema("t").unwrap().field_count(), 1);
    assert_eq!(tracker.topic_count(), 1);
    assert!(tracker.get_schema("u").is_none());
    tracker.clear_changes();
    assert!(tracker.recent_changes().is_empty());
}

#[test]
fn history_is_capped() {
    let mut tracker = SchemaTracker::new();
    let mut flip = false;
    for i in 0..60 {
        let doc = if flip { br#"{"v": "s"}"#.to_vec() } else { br#"{"v": 1}"#.to_vec() };
        flip = !flip;
        tracker.process_json("t", &parse_json(&doc).unwrap(), i);
    }
    assert_eq!(tracker.recent_changes().len(), 50);
    assert_eq!(tracker.recent_changes()[49].timestamp, 59);
    assert_eq!(tracker.recent_changes()[0].timestamp, 10);
}
