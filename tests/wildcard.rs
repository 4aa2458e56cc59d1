use mqtop::wildcard::{split_on, topic_matches};

#[test]
fn test_topic_matches() {
    assert!(topic_matches("#", "any/topic/here"));
    assert!(topic_matches("telemetry/#", "telemetry/device/sensor"));
    assert!(topic_matches("telemetry/+/sensor", "telemetry/device1/sensor"));
    assert!(!topic_matches("telemetry/+/sensor", "telemetry/device1/other"));
    assert!(topic_matches("exact/match", "exact/match"));
    assert!(!topic_matches("exact/match", "exact/other"));
}

#[test]
fn hash_matches_everything_including_empty_topic() {
    assert!(topic_matches("#", ""));
    assert!(topic_matches("#", "a"));
    assert!(topic_matches("#", "a/b/c/d/e"));
    assert!(topic_matches("#", "/"));
}

#[test]
fn wildcard_examples() {
    assert!(topic_matches("a/+/c", "a/b/c"));
    assert!(!topic_matches("a/+/c", "a/b/d"));
    assert!(topic_matches("a/#", "a/b/c/d"));
    assert!(!topic_matches("a/b", "a/b/c"));
}

#[test]
fn wildcard_edge_cases() {
    // a trailing `#` also accepts zero remaining segments
    assert!(topic_matches("a/#", "a"));
    // more pattern segments than topic segments
    assert!(!topic_matches("a/b/c", "a/b"));
    // `+` needs exactly one segment
    assert!(!topic_matches("a/+", "a"));
    assert!(topic_matches("a/+", "a/"));
    // case-sensitive
    assert!(!topic_matches("A/b", "a/b"));
}

#[test]
fn split_keeps_empty_pieces() {
    assert_eq!(split_on("a/b/c", '/'), vec!["a", "b", "c"]);
    assert_eq!(split_on("", '/'), vec![""]);
    assert_eq!(split_on("/a/", '/'), vec!["", "a", ""]);
}
