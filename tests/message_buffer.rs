use mqtop::message::MqttMessage;
use mqtop::message_buffer::MessageBuffer;

fn make_message(topic: &str, payload: &str) -> MqttMessage {
    MqttMessage::new(topic.to_string(), payload.as_bytes().to_vec(), 0, false)
}

#[test]
fn test_push_and_get() {
    let mut buffer = MessageBuffer::new(10).unwrap();

    buffer.push(make_message("test/topic", "message1"));
    buffer.push(make_message("test/topic", "message2"));

    let messages = buffer.get_messages("test/topic");
    assert_eq!(messages.len(), 2);

    assert_eq!(messages[0].payload_str().unwrap(), "message2");
    assert_eq!(messages[1].payload_str().unwrap(), "message1");
}

#[test]
fn test_ring_buffer_behavior() {
    let mut buffer = MessageBuffer::new(3).unwrap();

    buffer.push(make_message("topic", "msg1"));
    buffer.push(make_message("topic", "msg2"));
    buffer.push(make_message("topic", "msg3"));
    buffer.push(make_message("topic", "msg4"));

    let messages = buffer.get_messages("topic");
    assert_eq!(messages.len(), 3);

    assert_eq!(messages[0].payload_str().unwrap(), "msg4");
    assert_eq!(messages[2].payload_str().unwrap(), "msg2");
}

#[test]
fn test_multiple_topics() {
    let mut buffer = MessageBuffer::new(5).unwrap();

    buffer.push(make_message("topic/a", "a1"));
    buffer.push(make_message("topic/b", "b1"));
    buffer.push(make_message("topic/a", "a2"));

    assert_eq!(buffer.count_for_topic("topic/a"), 2);
    assert_eq!(buffer.count_for_topic("topic/b"), 1);
    assert_eq!(buffer.topic_count(), 2);
    assert_eq!(buffer.total_stored(), 3);
}

#[test]
fn test_get_latest() {
    let mut buffer = MessageBuffer::new(10).unwrap();

    buffer.push(make_message("topic", "first"));
    buffer.push(make_message("topic", "second"));
    buffer.push(make_message("topic", "latest"));

    let latest = buffer.get_latest("topic").unwrap();
    assert_eq!(latest.payload_str().unwrap(), "latest");
}

#[test]
fn test_clear() {
    let mut buffer = MessageBuffer::new(10).unwrap();

    buffer.push(make_message("a", "1"));
    buffer.push(make_message("b", "2"));

    buffer.clear();

    assert_eq!(buffer.total_stored(), 0);
    assert_eq!(buffer.topic_count(), 0);
}

#[test]
fn zero_capacity_is_refused() {
    assert!(MessageBuffer::new(0).is_none());
}

#[test]
fn capacity_plus_one_evicts_oldest_and_totals_add_up() {
    let mut buffer = MessageBuffer::new(4).unwrap();
    for i in 0..5 {
        buffer.push(make_message("t", &format!("m{}", i)));
    }
    buffer.push(make_message("u", "x"));
    let msgs = buffer.get_messages("t");
    assert_eq!(msgs.len(), 4);
    assert_eq!(msgs[3].payload_str().unwrap(), "m1");
    assert_eq!(buffer.total_stored(), buffer.count_for_topic("t") + buffer.count_for_topic("u"));
    assert_eq!(buffer.total_stored(), 5);
    buffer.clear_topic("t");
    assert_eq!(buffer.total_stored(), 1);
    assert!(buffer.get_latest("t").is_none());
    assert_eq!(buffer.count_for_topic("missing"), 0);
}

#[test]
fn test_binary_payload_hex() {
    let m = MqttMessage::new("t".to_string(), vec![0xDE, 0xAD, 0xBE, 0xEF], 0, false);
    assert_eq!(m.payload_hex(), "de ad be ef");
    assert_eq!(m.payload_size(), 4);
    assert!(m.payload_str().is_none());
}

#[test]
fn payload_renderings() {
    let m = MqttMessage::new_at("t".to_string(), b"{\"a\":1}".to_vec(), 1, true, 42);
    assert_eq!(m.payload_str(), Some("{\"a\":1}"));
    assert_eq!(m.payload_json_pretty().unwrap(), "{\n  \"a\": 1\n}");
    assert_eq!(m.timestamp, 42);
    let e = MqttMessage::new_at("t".to_string(), Vec::new(), 0, false, 0);
    assert_eq!(e.payload_hex(), "");
    assert!(MqttMessage::new_at("t".to_string(), b"nope".to_vec(), 0, false, 0).payload_json_pretty().is_none());
}

#[test]
fn recent_across_topics_newest_first() {
    let mut buffer = MessageBuffer::new(10).unwrap();
    buffer.push(MqttMessage::new_at("a".to_string(), b"1".to_vec(), 0, false, 10));
    buffer.push(MqttMessage::new_at("b".to_string(), b"2".to_vec(), 0, false, 30));
    buffer.push(MqttMessage::new_at("a".to_string(), b"3".to_vec(), 0, false, 20));
    let recent = buffer.get_recent_all(2);
    let times: Vec<i64> = recent.iter().map(|m| m.timestamp).collect();
    assert_eq!(times, vec![30, 20]);
    assert_eq!(buffer.get_recent_all(10).len(), 3);
    assert!(buffer.get_recent_all(0).is_empty());
}

#[test]
fn payload_modes() {
    use_modes();
}

fn use_modes() {
    let bin = MqttMessage::new_at("t".to_string(), vec![0xff, 0x00], 0, false, 0);
    assert_eq!(bin.formatted(mqtop::view_state::PayloadMode::Raw), "ff 00");
    assert_eq!(bin.formatted(mqtop::view_state::PayloadMode::Auto), "ff 00");
    assert_eq!(bin.formatted(mqtop::view_state::PayloadMode::Json), "<not valid JSON>");
    let text = MqttMessage::new_at("t".to_string(), b"hi".to_vec(), 0, false, 0);
    assert_eq!(text.formatted(mqtop::view_state::PayloadMode::Auto), "hi");
    assert_eq!(text.formatted(mqtop::view_state::PayloadMode::Hex), "68 69");
    let json = MqttMessage::new_at("t".to_string(), b"[1]".to_vec(), 0, false, 0);
    assert_eq!(json.formatted(mqtop::view_state::PayloadMode::Auto), "[\n  1\n]");
}
