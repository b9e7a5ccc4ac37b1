use cart::circuit_breaker::CircuitBreakerConfig;
use cart::config::{CacheConfig, HealthConfig};
use cart::float32::F32;
use cart::routing::{decide, select, CacheRouter, Reason};
use cart::tree::PrefixMatch;
use cart::worker::Worker;

fn f(x: f32) -> F32 {
    F32 { bits: x.to_bits() }
}

fn config() -> CacheConfig {
    CacheConfig {
        cache_threshold: f(0.3),
        match_abs_threshold: 8192,
        balance_abs_threshold: 5,
        balance_rel_threshold: f(1.25),
        eviction_interval_secs: 60,
        max_tree_size: 1048576,
        daily_cleanup_hour_utc: -1,
    }
}

fn worker(url: &str, max_load: usize, load_penalty: usize) -> Worker {
    let health = HealthConfig {
        endpoint: "/v1/models".to_string(),
        interval_secs: 10,
        failure_threshold: 1,
        success_threshold: 1,
    };
    Worker::new(url.to_string(), max_load, load_penalty, health, CircuitBreakerConfig::default())
}

fn router(n: usize) -> CacheRouter {
    let workers = (0..n).map(|i| worker(&format!("http://w{}", i), 20, 0)).collect();
    CacheRouter::new(workers, config())
}

fn add_load(r: &mut CacheRouter, worker: usize, n: usize) {
    for _ in 0..n {
        r.pool.acquire(worker).disarm();
    }
}

#[test]
fn no_replica_no_route() {
    assert_eq!(router(0).select_worker("hello", None, 0), None);
    assert!(router(1).select_route("hello", Some(0), 0).is_none());
}

#[test]
fn a_single_replica_takes_everything() {
    let r = router(1);
    let route = r.select_route("hello", None, 0).unwrap();
    assert_eq!((route.worker, route.reason), (0, Reason::SingleAvailable));
    // The other one is to be avoided.
    let r = router(2);
    let route = r.select_route("hello", Some(0), 0).unwrap();
    assert_eq!((route.worker, route.reason), (1, Reason::SingleAvailable));
}

#[test]
fn replicas_at_their_cap_are_skipped() {
    let mut r = router(2);
    add_load(&mut r, 0, 20);
    for _ in 0..20 {
        assert_eq!(r.select_worker("", None, 0), Some(1));
    }
    add_load(&mut r, 1, 20);
    assert_eq!(r.select_worker("", None, 0), None);
}

#[test]
fn unhealthy_replicas_are_skipped() {
    let mut r = router(2);
    r.pool.check_health(1, false);
    assert_eq!(r.select_worker("x", None, 0), Some(0));
    r.pool.check_health(1, true);
    assert_eq!(r.pool.least_loaded_workers(None, 0), vec![0, 1]);
}

#[test]
fn an_open_breaker_keeps_requests_away() {
    let mut r = router(2);
    for _ in 0..5 {
        r.pool.record_outcome(0, false, 0);
    }
    assert_eq!(r.select_worker("x", None, 0), Some(1));
    assert_eq!(r.pool.least_loaded_workers(None, 30_000_000_000), vec![0, 1]);
}

#[test]
fn the_least_loaded_replica_wins_without_a_match() {
    let mut r = router(3);
    add_load(&mut r, 0, 2);
    add_load(&mut r, 1, 1);
    add_load(&mut r, 2, 3);
    let route = r.select_route("hello", None, 0).unwrap();
    assert_eq!((route.worker, route.reason), (1, Reason::CacheMiss));
    let route = r.select_route("", None, 0).unwrap();
    assert_eq!((route.worker, route.reason), (1, Reason::EmptyText));
}

#[test]
fn a_penalty_biases_away() {
    let workers = vec![worker("http://w0", 20, 3), worker("http://w1", 20, 0)];
    let mut r = CacheRouter::new(workers, config());
    add_load(&mut r, 1, 2);
    assert_eq!(r.pool.least_loaded_workers(None, 0), vec![1]);
    add_load(&mut r, 1, 1);
    assert_eq!(r.pool.least_loaded_workers(None, 0), vec![0, 1]);
}

#[test]
fn ties_are_broken_by_chance_among_the_tied() {
    let mut r = router(4);
    add_load(&mut r, 2, 1);
    assert_eq!(r.pool.least_loaded_workers(None, 0), vec![0, 1, 3]);
    let mut seen = [0usize; 4];
    for _ in 0..600 {
        seen[r.select_worker("", None, 0).unwrap()] += 1;
    }
    assert_eq!(seen[2], 0);
    assert!(seen[0] > 0 && seen[1] > 0 && seen[3] > 0);
}

#[test]
fn a_recorded_request_is_followed() {
    let mut r = router(3);
    assert!(r.tree.has_room());
    r.record_routed(1, "the quick brown fox");
    for pick in [0usize, 1, 2] {
        let route = r.route("the quick brown fox", None, 0, pick);
        assert_eq!((route.worker, route.reason, route.matched_char_count), (1, Reason::CacheHit, 19));
    }
    // Ten of nineteen characters are more than thirty percent.
    let route = r.route("the quick red foxes", None, 0, 0);
    assert_eq!((route.worker, route.reason, route.matched_char_count), (1, Reason::CacheHit, 10));
}

#[test]
fn a_short_match_is_not_followed() {
    let mut r = router(2);
    r.record_routed(1, "abc");
    // Three of ten characters reach thirty percent, three of eleven do not.
    assert_eq!(r.route("abcdefghij", None, 0, 0).reason, Reason::CacheHit);
    let route = r.route("abcdefghijk", None, 0, 0);
    assert_eq!((route.worker, route.reason, route.matched_char_count), (0, Reason::CacheMiss, 3));
}

#[test]
fn a_long_match_is_followed_whatever_the_fraction() {
    let mut c = config();
    c.match_abs_threshold = 4;
    let workers = vec![worker("http://w0", 20, 0), worker("http://w1", 20, 0)];
    let mut r = CacheRouter::new(workers, c);
    r.record_routed(1, "abcd");
    let long = format!("abcd{}", "x".repeat(1000));
    assert_eq!(r.route(&long, None, 0, 0).worker, 1);
    let short = format!("abc{}", "x".repeat(1000));
    assert_eq!(r.route(&short, None, 0, 0).worker, 0);

    let mut c = config();
    c.match_abs_threshold = 0;
    let workers = vec![worker("http://w0", 20, 0), worker("http://w1", 20, 0)];
    let mut r = CacheRouter::new(workers, c);
    r.record_routed(1, "abcd");
    assert_eq!(r.route(&long, None, 0, 0).reason, Reason::CacheMiss);
}

#[test]
fn load_wins_over_affinity_if_both_limits_are_exceeded() {
    let mut r = router(2);
    r.record_routed(1, "hello");
    add_load(&mut r, 1, 4);
    assert_eq!(r.route("hello", None, 0, 0).reason, Reason::CacheHit);
    add_load(&mut r, 1, 1);
    // Five more than none: too busy.
    let route = r.route("hello", None, 0, 0);
    assert_eq!((route.worker, route.reason, route.matched_char_count), (0, Reason::HitOverloaded, 5));
    // Fifteen to twelve: the difference is too small.
    add_load(&mut r, 0, 12);
    add_load(&mut r, 1, 10);
    assert_eq!(r.route("hello", None, 0, 0).reason, Reason::CacheHit);
}

#[test]
fn a_relative_limit_alone_protects_affinity() {
    let mut c = config();
    c.balance_rel_threshold = f(2.0);
    let workers = vec![worker("http://w0", 100, 0), worker("http://w1", 100, 0)];
    let mut r = CacheRouter::new(workers, c);
    r.record_routed(1, "hello");
    add_load(&mut r, 0, 10);
    add_load(&mut r, 1, 19);
    assert_eq!(r.route("hello", None, 0, 0).reason, Reason::CacheHit);
    add_load(&mut r, 1, 1);
    assert_eq!(r.route("hello", None, 0, 0).reason, Reason::HitOverloaded);
}

#[test]
fn an_unavailable_holder_is_a_miss() {
    let mut r = router(3);
    r.record_routed(1, "hello");
    r.pool.check_health(1, false);
    let route = r.select_route("hello", None, 0).unwrap();
    assert_eq!(route.reason, Reason::CacheMiss);
    assert_ne!(route.worker, 1);
    r.pool.check_health(1, true);
    assert_eq!(r.select_worker("hello", None, 0), Some(1));
    assert_ne!(r.select_worker("hello", Some(1), 0), Some(1));
}

#[test]
fn of_replicas_with_one_address_the_first_holds_the_prefix() {
    let workers = vec![worker("http://same", 20, 0), worker("http://other", 20, 0), worker("http://same", 20, 0)];
    let mut r = CacheRouter::new(workers, config());
    r.record_routed(2, "hello");
    assert_eq!(r.route("hello", None, 0, 1).worker, 0);
}

#[test]
fn an_empty_text_leaves_no_trace() {
    let mut r = router(2);
    r.record_routed(0, "");
    let m = r.tree.prefix_match_with_counts("");
    // The replica that was registered last.
    assert_eq!(m.tenant, Some("http://w1".to_string()));
}

#[test]
fn eviction_forgets_routes() {
    let mut r = router(2);
    r.record_routed(1, "hello");
    r.evict(5);
    assert_eq!(r.route("hello", None, 0, 0).reason, Reason::CacheHit);
    r.evict(4);
    let route = r.route("hello", None, 0, 0);
    assert_eq!((route.reason, route.matched_char_count), (Reason::CacheMiss, 0));
}

#[test]
fn a_guard_takes_its_request_off_the_load() {
    let mut r = router(2);
    let guard = r.pool.acquire(1);
    assert_eq!(r.workers()[1].load(), 1);
    r.pool.release(guard);
    assert_eq!(r.workers()[1].load(), 0);
    assert_eq!(r.pool.acquire(1).disarm(), 1);
    assert_eq!(r.workers()[1].load(), 1);
    r.pool.end_stream(1);
    assert_eq!(r.workers()[1].load(), 0);
}

#[test]
fn a_guard_knows_its_place() {
    let workers = vec![worker("http://same", 20, 0), worker("http://same", 20, 0)];
    let mut r = CacheRouter::new(workers, config());
    let guard = r.pool.acquire(1);
    assert_eq!(guard.slot(), 1);
    assert!(r.pool.owns(&guard));
    assert!(!guard.covers(&r.workers()[0]));
    assert!(guard.covers(&r.workers()[1]));
    r.pool.release(guard);
    assert_eq!(r.workers()[0].load(), 0);
    assert_eq!(r.workers()[1].load(), 0);
    // A smaller pool does not own it.
    let guard = r.pool.acquire(1);
    assert!(!router(1).pool.owns(&guard));
}

#[test]
fn a_text_of_which_nothing_is_known_goes_to_the_least_loaded() {
    let mut r = router(2);
    r.record_routed(1, "hello");
    let unknown = PrefixMatch::unmatched("hello");
    assert_eq!((unknown.matched_char_count, unknown.input_char_count), (0, 5));
    let route = decide(&r.pool, &r.config, None, 0, &unknown, 0);
    assert_eq!((route.worker, route.reason), (0, Reason::CacheMiss));
    let found = r.tree.prefix_match_with_counts("hello");
    assert_eq!(decide(&r.pool, &r.config, None, 0, &found, 0).worker, 1);
    assert_eq!(select(&r.pool, &r.config, None, 0, &found).map(|route| route.worker), Some(1));
}

#[test]
fn reasons_have_words() {
    let words: Vec<&str> = [
        Reason::SingleAvailable,
        Reason::EmptyText,
        Reason::HitOverloaded,
        Reason::CacheHit,
        Reason::CacheMiss,
    ]
    .iter()
    .map(|r| r.label())
    .collect();
    assert_eq!(words, vec!["single_available", "empty_text", "hit_overloaded", "cache_hit", "cache_miss"]);
}
