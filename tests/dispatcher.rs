use mqtop::dispatcher::{Analytics, MqttEvent};
use mqtop::message::MqttMessage;
use mqtop::resilience::ConnectionState;
use mqtop::schema_tracker::ChangeType;

fn msg(topic: &str, payload: &str, at: i64) -> MqttEvent {
    MqttEvent::Message(MqttMessage::new_at(topic.to_string(), payload.as_bytes().to_vec(), 0, false, at))
}

#[test]
fn message_fans_out_to_every_subsystem() {
    let mut a = Analytics::new_at(100, 10, 0).unwrap();
    a.metric_tracker.track("Power".to_string(), "telemetry/+/meter".to_string(), "W".to_string());
    let first = a.handle_event(msg("telemetry/d1/meter", r#"{"W": 1500}"#, 1000));
    assert!(first.is_empty());
    a.handle_event(msg("telemetry/d1/meter", r#"{"W": 1450}"#, 2000));
    let changes = a.handle_event(msg("telemetry/d1/meter", r#"{"W": 1600, "V": 230}"#, 3000));
    assert_eq!(changes.len(), 1);
    assert_eq!(changes[0].change_type, ChangeType::FieldAdded);
    assert_eq!(a.stats.total_messages(), 3);
    assert_eq!(a.topic_tree.topic_count(), 1);
    assert_eq!(a.message_buffer.count_for_topic("telemetry/d1/meter"), 3);
    assert_eq!(a.device_tracker.device_count(), 1);
    assert_eq!(a.latency_tracker.inter_arrival_count, 2);
    let m = a.metric_tracker.get_metric("Power").unwrap();
    assert_eq!((m.min, m.max, m.sum, m.count), (1_450_000, 1_600_000, 4_550_000, 3));
    assert_eq!(m.latest(), Some(1_600_000));
}

#[test]
fn lifecycle_events() {
    let mut a = Analytics::new_at(10, 10, 0).unwrap();
    assert_eq!(a.connection_state, ConnectionState::Disconnected);
    a.handle_event(MqttEvent::Error("boom".to_string()));
    assert_eq!(a.last_error, Some("boom".to_string()));
    a.handle_event(MqttEvent::StateChange(ConnectionState::Reconnecting));
    assert_eq!(a.last_error, Some("boom".to_string()));
    a.handle_event(MqttEvent::StateChange(ConnectionState::Connected));
    assert_eq!(a.connection_state, ConnectionState::Connected);
    assert_eq!(a.last_error, None);
    assert!(Analytics::new_at(0, 10, 0).is_none());
}
