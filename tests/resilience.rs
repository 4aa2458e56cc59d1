use mqtop::resilience::{
    next_state, BackoffStrategy, ConnectionHealth, ConnectionState, LinkEvent, ReconnectStep,
};

#[test]
fn test_backoff_exponential_growth() {
    let backoff = BackoffStrategy::new()
        .with_base_delay(100)
        .with_max_delay(60_000)
        .with_jitter(0);

    assert_eq!(backoff.delay_for_attempt(1), Some(100));
    assert_eq!(backoff.delay_for_attempt(2), Some(200));
    assert_eq!(backoff.delay_for_attempt(3), Some(400));
    assert_eq!(backoff.delay_for_attempt(4), Some(800));
}

#[test]
fn test_backoff_respects_max_delay() {
    let backoff = BackoffStrategy::new()
        .with_base_delay(1000)
        .with_max_delay(10_000)
        .with_jitter(0);

    let delay = backoff.delay_for_attempt(20).unwrap();
    assert_eq!(delay, 10_000);
}

#[test]
fn test_backoff_max_attempts() {
    let backoff = BackoffStrategy::new().with_max_attempts(3);

    assert!(backoff.should_continue(0));
    assert!(backoff.should_continue(1));
    assert!(backoff.should_continue(2));
    assert!(!backoff.should_continue(3));

    assert!(backoff.delay_for_attempt(1).is_some());
    assert!(backoff.delay_for_attempt(3).is_some());
    assert!(backoff.delay_for_attempt(4).is_none());
}

#[test]
fn test_backoff_infinite_attempts() {
    let backoff = BackoffStrategy::new();

    assert!(backoff.should_continue(1000));
    assert!(backoff.delay_for_attempt(1000).is_some());
}

#[test]
fn test_connection_health_success_resets_failures() {
    let mut health = ConnectionHealth::new(BackoffStrategy::new());

    health.record_failure("error 1".to_string());
    health.record_failure("error 2".to_string());
    assert_eq!(health.failure_count(), 2);
    assert!(!health.is_healthy());
    assert_eq!(health.last_error(), Some("error 2"));

    health.record_success();
    assert_eq!(health.failure_count(), 0);
    assert!(health.is_healthy());
    assert!(health.last_error().is_none());
}

#[test]
fn test_connection_health_tracks_totals() {
    let mut health = ConnectionHealth::new(BackoffStrategy::new());

    health.record_success();
    assert_eq!(health.total_connections(), 1);
    assert_eq!(health.total_reconnects(), 0);

    health.record_failure("disconnect".to_string());
    health.record_success();
    assert_eq!(health.total_connections(), 2);
    assert_eq!(health.total_reconnects(), 1);

    health.record_failure("disconnect".to_string());
    health.record_failure("still down".to_string());
    health.record_success();
    assert_eq!(health.total_connections(), 3);
    assert_eq!(health.total_reconnects(), 2);
}

#[test]
fn test_connection_health_delay_progression() {
    let mut health = ConnectionHealth::new(BackoffStrategy::new().with_base_delay(100).with_jitter(0));

    assert!(health.is_healthy());

    health.record_failure("e1".to_string());
    let d1 = health.next_reconnect_delay().unwrap();

    health.record_failure("e2".to_string());
    let d2 = health.next_reconnect_delay().unwrap();

    health.record_failure("e3".to_string());
    let d3 = health.next_reconnect_delay().unwrap();

    assert!(d2 > d1, "Delay should increase: {:?} > {:?}", d2, d1);
    assert!(d3 > d2, "Delay should increase: {:?} > {:?}", d3, d2);
}

#[test]
fn test_connection_health_should_reconnect_with_limit() {
    let mut health = ConnectionHealth::new(BackoffStrategy::new().with_max_attempts(2));

    assert!(health.should_reconnect());

    health.record_failure("e1".to_string());
    assert!(health.should_reconnect());

    health.record_failure("e2".to_string());
    assert!(!health.should_reconnect());
}

#[test]
fn should_reconnect_below_limit_of_three() {
    let mut health = ConnectionHealth::new(BackoffStrategy::new().with_max_attempts(3));
    assert!(health.should_reconnect());
    health.record_failure("a".to_string());
    assert!(health.should_reconnect());
    health.record_failure("b".to_string());
    assert!(health.should_reconnect());
    health.record_failure("c".to_string());
    assert!(!health.should_reconnect());
}

#[test]
fn deterministic_jitter_value() {
    // base 1000 ms, jitter 0.1: range 100 on attempt 1, jitter (1 * 17) mod 100
    let b = BackoffStrategy::new().with_base_delay(1000).with_jitter(100);
    assert_eq!(b.delay_for_attempt(1), Some(1017));
    // attempt 2: delay 2000, range 200, jitter 34
    assert_eq!(b.delay_for_attempt(2), Some(2034));
    // the jitter never passes the cap
    let capped = BackoffStrategy::new().with_base_delay(1000).with_max_delay(1000).with_jitter(1000);
    assert_eq!(capped.delay_for_attempt(3), Some(1000));
    // factors above 1 are clamped
    assert_eq!(BackoffStrategy::new().with_jitter(5000).jitter_permille, 1000);
}

#[test]
fn connection_error_step() {
    let mut health = ConnectionHealth::new(
        BackoffStrategy::new().with_base_delay(100).with_jitter(0).with_max_attempts(2),
    );
    assert_eq!(health.on_connection_error("x".to_string(), 0), ReconnectStep::RetryAfter { delay_ms: 100 });
    assert_eq!(health.on_connection_error("y".to_string(), 5000), ReconnectStep::GiveUp);
    assert_eq!(health.last_error(), Some("y"));

    let mut h2 = ConnectionHealth::new(BackoffStrategy::new().with_base_delay(100).with_jitter(0));
    assert_eq!(h2.on_connection_error("z".to_string(), 32_000), ReconnectStep::RetryAfter { delay_ms: 32_000 });
}

#[test]
fn state_machine_transitions() {
    type S = ConnectionState;
    assert_eq!(next_state(S::Disconnected, LinkEvent::Started), S::Connecting);
    assert_eq!(next_state(S::Connecting, LinkEvent::Succeeded), S::Connected);
    assert_eq!(next_state(S::Connected, LinkEvent::Failed { exhausted: false }), S::Reconnecting);
    assert_eq!(next_state(S::Reconnecting, LinkEvent::Succeeded), S::Connected);
    assert_eq!(next_state(S::Reconnecting, LinkEvent::Failed { exhausted: true }), S::Disconnected);
    assert_eq!(next_state(S::Connected, LinkEvent::Started), S::Connected);
}

#[test]
fn invalid_backoff_is_refused() {
    assert!(BackoffStrategy::try_new(0, 1000, None, 0).is_none());
    assert!(BackoffStrategy::try_new(2000, 1000, None, 0).is_none());
    assert!(BackoffStrategy::try_new(100, 1000, None, 1001).is_none());
    let b = BackoffStrategy::try_new(100, 1000, Some(3), 0).unwrap();
    assert_eq!(b.delay_for_attempt(1), Some(100));
    assert_eq!(b.delay_for_attempt(4), None);
}
