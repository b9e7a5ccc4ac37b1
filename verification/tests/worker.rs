use cart::circuit_breaker::{CircuitBreakerConfig, CircuitState};
use cart::config::HealthConfig;
use cart::worker::{LoadGuard, Worker};

const SECOND: u64 = 1_000_000_000;

fn test_worker() -> Worker {
    Worker::new(
        "http://test".to_string(),
        10,
        0,
        HealthConfig {
            endpoint: "/v1/models".to_string(),
            interval_secs: 10,
            failure_threshold: 3,
            success_threshold: 2,
        },
        CircuitBreakerConfig::default(),
    )
}

#[test]
fn test_load_guard_increments_and_decrements() {
    let mut worker = test_worker();
    assert_eq!(worker.load(), 0);

    {
        let guard = LoadGuard::new(&mut worker);
        assert_eq!(worker.load(), 1);
        guard.release(&mut worker);
    }

    assert_eq!(worker.load(), 0);
}

#[test]
fn test_load_guard_disarm_prevents_decrement() {
    let mut worker = test_worker();
    assert_eq!(worker.load(), 0);

    let guard = LoadGuard::new(&mut worker);
    assert_eq!(worker.load(), 1);

    let _slot = guard.disarm();
    assert_eq!(worker.load(), 1);

    worker.decrement_load();
    assert_eq!(worker.load(), 0);
}

#[test]
fn test_load_guard_multiple_guards() {
    let mut worker = test_worker();
    assert_eq!(worker.load(), 0);

    let guard1 = LoadGuard::new(&mut worker);
    assert_eq!(worker.load(), 1);

    let guard2 = LoadGuard::new(&mut worker);
    assert_eq!(worker.load(), 2);

    guard1.release(&mut worker);
    assert_eq!(worker.load(), 1);

    guard2.release(&mut worker);
    assert_eq!(worker.load(), 0);
}

#[test]
fn the_load_never_falls_below_zero() {
    let mut worker = test_worker();
    worker.decrement_load();
    assert_eq!(worker.load(), 0);
    worker.increment_load();
    worker.increment_load();
    worker.decrement_load();
    assert_eq!(worker.load(), 1);
}

#[test]
fn a_penalty_counts_in_comparisons_only() {
    let mut worker = Worker::new(
        "http://weak".to_string(),
        2,
        3,
        HealthConfig {
            endpoint: "/v1/models".to_string(),
            interval_secs: 10,
            failure_threshold: 3,
            success_threshold: 2,
        },
        CircuitBreakerConfig::default(),
    );
    assert_eq!(worker.load_display(), "0(+3)");
    assert_eq!(worker.effective_load(), 3);
    assert!(worker.is_available(0));
    worker.increment_load();
    assert_eq!(worker.effective_load(), 4);
    assert_eq!(worker.load_display(), "1(+3)");
    assert!(worker.is_available(0));
    worker.increment_load();
    assert!(!worker.is_available(0));
    assert_eq!(worker.max_load(), 2);
    assert_eq!(worker.load_penalty(), 3);
    assert_eq!(test_worker().load_display(), "0");
}

#[test]
fn an_effective_load_stops_at_the_largest_word() {
    let worker = Worker::new(
        "http://test".to_string(),
        10,
        usize::MAX,
        HealthConfig {
            endpoint: "/".to_string(),
            interval_secs: 1,
            failure_threshold: 1,
            success_threshold: 1,
        },
        CircuitBreakerConfig::default(),
    );
    let mut worker = worker;
    worker.increment_load();
    assert_eq!(worker.effective_load(), usize::MAX);
}

#[test]
fn three_failed_checks_in_a_row_make_a_replica_unhealthy() {
    let mut worker = test_worker();
    assert!(worker.can_count_health());
    assert!(!worker.check_health(false));
    worker.handle_health_failure();
    assert!(worker.is_healthy());
    assert!(worker.check_health(true));
    assert!(!worker.check_health(false));
    assert!(!worker.check_health(false));
    assert!(worker.is_healthy());
    assert!(!worker.check_health(false));
    assert!(!worker.is_healthy());
    assert!(!worker.is_available(0));
    // Two successes bring it back.
    assert!(worker.check_health(true));
    assert!(!worker.is_healthy());
    assert!(worker.check_health(true));
    assert!(worker.is_healthy());
    assert!(worker.is_available(0));
}

#[test]
fn a_check_asks_the_endpoint_of_the_replica() {
    let worker = test_worker();
    assert_eq!(worker.health_url(), "http://test/v1/models");
    assert_eq!(worker.health_interval_secs(), 10);
    assert_eq!(worker.url(), "http://test");
    assert!(worker.has_url(&"http://test".to_string()));
    assert!(!worker.has_url(&"http://test/".to_string()));
}

#[test]
fn a_guard_belongs_to_one_replica() {
    let mut worker = test_worker();
    let guard = LoadGuard::new(&mut worker);
    assert!(guard.covers(&worker));
    assert_eq!(guard.slot(), 0);
    let mut elsewhere = test_worker();
    elsewhere.place(3);
    assert!(!guard.covers(&elsewhere));
    assert_eq!(guard.disarm(), 0);
}

#[test]
fn the_breaker_opens_half_opens_and_closes() {
    let mut worker = test_worker();
    for _ in 0..4 {
        worker.record_outcome(false, SECOND);
    }
    assert_eq!(worker.circuit_state(SECOND), CircuitState::Closed);
    worker.record_outcome(false, SECOND);
    assert_eq!(worker.circuit_state(SECOND), CircuitState::Open);
    assert!(!worker.is_available(SECOND));
    // It stays open for thirty seconds.
    assert_eq!(worker.circuit_state(31 * SECOND - 1), CircuitState::Open);
    assert_eq!(worker.circuit_state(31 * SECOND), CircuitState::HalfOpen);
    assert!(worker.is_available(31 * SECOND));
    // Two successes close it.
    worker.record_outcome(true, 31 * SECOND);
    assert_eq!(worker.circuit_state(31 * SECOND), CircuitState::HalfOpen);
    worker.record_outcome(true, 31 * SECOND);
    assert_eq!(worker.circuit_state(31 * SECOND), CircuitState::Closed);
    assert!(worker.circuit_breaker().can_execute(31 * SECOND));
}

#[test]
fn a_failure_on_trial_opens_the_breaker_again() {
    let mut worker = test_worker();
    for _ in 0..5 {
        worker.record_outcome(false, 0);
    }
    worker.record_outcome(false, 30 * SECOND);
    assert_eq!(worker.circuit_state(59 * SECOND), CircuitState::Open);
    assert_eq!(worker.circuit_state(60 * SECOND), CircuitState::HalfOpen);
}

#[test]
fn a_success_forgives_failures() {
    let mut worker = test_worker();
    for _ in 0..4 {
        worker.record_outcome(false, 0);
    }
    worker.record_outcome(true, 0);
    worker.record_outcome(false, 0);
    assert_eq!(worker.circuit_state(0), CircuitState::Closed);
}
