use mqtop::config::{generate_client_id, default_port, default_subscribe_topic, Config, MqttConfig, UiConfig};
use mqtop::text::{decimal, fixed, format_count, format_number, is_uuid_like};
use mqtop::view_state::{FilterMode, Panel, PayloadMode};

#[test]
fn decimal_and_fixed() {
    assert_eq!(decimal(0), "0");
    assert_eq!(decimal(u64::MAX), "18446744073709551615");
    assert_eq!(fixed(1, 8, 2), "0.13");
    assert_eq!(fixed(u64::MAX, 1, 2), "18446744073709551615.00");
    assert_eq!(format_number(999), "999");
    assert_eq!(format_number(1_500), "1.5k");
    assert_eq!(format_number(2_345_678), "2.35M");
    assert_eq!(format_count(2_345_678), "2.3M");
}

#[test]
fn uuid_like_names() {
    assert!(is_uuid_like("zap-0000d8c467e385a0"));
    assert!(!is_uuid_like("kitchen-light"));
    assert!(!is_uuid_like("a1b2c3"));
    assert!(!is_uuid_like("1234/5678"));
}

#[test]
fn config_defaults_and_credentials() {
    assert_eq!(default_port(), 1883);
    assert_eq!(default_subscribe_topic(), "#");
    let ui = UiConfig::default();
    assert_eq!((ui.message_buffer_size, ui.stats_window_secs, ui.tick_rate_ms), (100, 10, 100));
    let mqtt = MqttConfig {
        host: "h".to_string(),
        port: 1883,
        use_tls: false,
        client_id: "client".to_string(),
        username: None,
        token: None,
        subscribe_topic: "#".to_string(),
        keep_alive_secs: 30,
    };
    assert_eq!(mqtt.get_username(), "client");
    assert_eq!(mqtt.get_token(), "");
    let c = Config { mqtt, ui }.with_fallback_token(Some("tok".to_string()));
    assert_eq!(c.mqtt.get_token(), "tok");
    let c = c.with_fallback_token(Some("other".to_string()));
    assert_eq!(c.mqtt.get_token(), "tok");
}

#[test]
fn view_modes_cycle() {
    assert_eq!(Panel::TopicTree.next(), Panel::Messages);
    assert_eq!(Panel::TopicTree.prev(), Panel::Stats);
    assert_eq!(PayloadMode::Json.next(), PayloadMode::Auto);
    assert_eq!(FilterMode::All.toggled(), FilterMode::Starred);
}

#[test]
fn client_ids() {
    assert_eq!(generate_client_id("dev", true, 123_456_789), "dev");
    assert_eq!(generate_client_id("dev", false, 123_456_789), "dev-56789");
    assert_eq!(generate_client_id("  ", false, 100_007), "mqtop-7");
    assert_eq!(generate_client_id("", false, -5), "mqtop-0");
}

#[test]
fn display_labels() {
    assert_eq!(mqtop::resilience::ConnectionState::Reconnecting.label(), "Reconnecting...");
    assert_eq!(mqtop::schema_tracker::FieldType::Boolean.name(), "bool");
    assert_eq!(mqtop::schema_tracker::ChangeType::TypeChanged.symbol(), "~");
}

#[test]
fn truncate_on_char_boundaries() {
    use_truncate();
}

fn use_truncate() {
    let t = mqtop::text::truncate_safe;
    assert_eq!(t("hello", 10), "hello");
    assert_eq!(t("hello", 3), "hel");
    // 'é' takes two bytes: a cut inside it moves back to its start
    assert_eq!(t("aé", 2), "a");
    assert_eq!(t("aé", 3), "aé");
    assert_eq!(t("é", 0), "");
}

#[test]
fn integer_text() {
    let p = mqtop::number::parse_i64;
    assert_eq!(p("42"), Some(42));
    assert_eq!(p("+7"), Some(7));
    assert_eq!(p("-9223372036854775808"), Some(i64::MIN));
    assert_eq!(p("9223372036854775808"), None);
    assert_eq!(p(""), None);
    assert_eq!(p("-"), None);
    assert_eq!(p(" 1"), None);
    assert_eq!(p("1.0"), None);
    for s in ["0", "-0", "00012", "123456789012345678", "+", "1e3", "99999999999999999999999"] {
        assert_eq!(p(s), s.parse::<i64>().ok());
    }
}

#[test]
fn blank_client_id_with_unicode_space() {
    assert_eq!(generate_client_id("\u{3000}\t", false, 5), "mqtop-5");
}
