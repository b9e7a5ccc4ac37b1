use cart::config::{AppConfig, Section, WorkerEntry};
use cart::debug::{
    fragmentation, freed, heap_dump, purge_control, purge_fallback, stat_or_zero, HeapDump, ALL_ARENAS,
};
use cart::eviction::{eviction_enabled, EvictionSchedule};
use cart::metrics;
use cart::reload::{build_router, build_workers, reload};
use cart::server::{health_report, worker_report, worker_reports, Fetched, ModelsCache};
use cart::text::{chars_of, decimal_string, same_text, starts_with};
use std::time::Duration;

const MINUTE: u64 = 60_000_000_000;

fn config(urls: &[&str]) -> AppConfig {
    AppConfig::with_workers(
        urls.iter()
            .map(|url| WorkerEntry { url: url.to_string(), max_load: 2, load_penalty: 1 })
            .collect(),
    )
}

// ---- the list of models ----

#[test]
fn an_empty_cache_has_expired() {
    let cache = ModelsCache::new();
    assert!(cache.expired(0));
    assert!(cache.bytes().is_none());
}

#[test]
fn models_are_cached_for_ten_minutes() {
    let mut cache = ModelsCache::new();
    assert_eq!(cache.store(200, Some(b"[]".to_vec()), MINUTE), Fetched::Stored);
    assert!(!cache.expired(MINUTE));
    assert!(!cache.expired(11 * MINUTE - 1));
    assert!(cache.expired(11 * MINUTE));
    assert!(!cache.expired(0));
    assert_eq!(cache.bytes(), Some(&b"[]".to_vec()));
}

#[test]
fn answers_that_cannot_be_cached() {
    let mut cache = ModelsCache::new();
    assert_eq!(cache.store(503, Some(b"x".to_vec()), 0), Fetched::PassThrough);
    assert_eq!(cache.store(404, None, 0), Fetched::PassThrough);
    assert_eq!(cache.store(200, None, 0), Fetched::Unusable);
    assert_eq!(cache.store(200, Some(vec![]), 0), Fetched::Unusable);
    assert_eq!(cache.store(200, Some(vec![0; 8193]), 0), Fetched::Unusable);
    assert!(cache.bytes().is_none());
    assert_eq!(cache.store(204, Some(vec![0; 8192]), 0), Fetched::Stored);
    // A later failure keeps what is there.
    assert_eq!(cache.store(500, None, MINUTE), Fetched::PassThrough);
    assert_eq!(cache.bytes().map(|b| b.len()), Some(8192));
}

// ---- health and replicas ----

#[test]
fn health_needs_one_healthy_replica() {
    let mut router = build_router(&config(&["http://a", "http://b"]));
    let report = health_report(&router.pool);
    assert_eq!((report.status, report.healthy_workers, report.total_workers), (200, 2, 2));
    for _ in 0..3 {
        router.pool.check_health(0, false);
    }
    let report = health_report(&router.pool);
    assert_eq!((report.status, report.healthy_workers, report.total_workers), (200, 1, 2));
    for _ in 0..3 {
        router.pool.check_health(1, false);
    }
    let report = health_report(&router.pool);
    assert_eq!((report.status, report.healthy_workers, report.total_workers), (503, 0, 2));
}

#[test]
fn replicas_are_reported_one_by_one() {
    let mut router = build_router(&config(&["http://a", "http://b"]));
    router.pool.acquire(1).disarm();
    router.pool.acquire(1).disarm();
    for _ in 0..5 {
        router.pool.record_outcome(0, false, 0);
    }
    let reports = worker_reports(&router.pool, 0);
    assert_eq!(reports.len(), 2);
    assert_eq!(reports[0].url, "http://a");
    assert!(reports[0].healthy);
    assert!(!reports[0].available);
    assert_eq!(reports[0].circuit_breaker_state, "Open");
    assert_eq!(reports[1].load, 2);
    assert_eq!(reports[1].effective_load, 3);
    assert_eq!(reports[1].load_penalty, 1);
    assert_eq!(reports[1].max_load, 2);
    assert!(!reports[1].available);
    assert_eq!(reports[1].circuit_breaker_state, "Closed");
    let later = worker_report(&router.workers()[0], 30_000_000_000);
    assert_eq!(later.circuit_breaker_state, "HalfOpen");
    assert!(later.available);
}

// ---- reloading ----

#[test]
fn replicas_are_built_from_their_entries() {
    let mut c = config(&["http://a", "http://b"]);
    c.health.endpoint = "/healthz".to_string();
    c.circuit_breaker.failure_threshold = 1;
    let mut workers = build_workers(&c);
    assert_eq!(workers.len(), 2);
    assert_eq!(workers[1].health_url(), "http://b/healthz");
    assert_eq!(workers[1].max_load(), 2);
    assert_eq!(workers[1].load_penalty(), 1);
    workers[0].record_outcome(false, 0);
    assert!(!workers[0].is_available(0));
}

#[test]
fn a_reload_starts_cold() {
    let old = config(&["http://a"]);
    let new = config(&["http://a", "http://b"]);
    let mut router = build_router(&old);
    router.record_routed(0, "hello");
    let router = reload(&old, &new).ok().unwrap();
    assert_eq!(router.workers().len(), 2);
    assert_eq!(router.tree.prefix_match_with_counts("hello").matched_char_count, 0);
    assert_eq!(router.pool.least_loaded_workers(None, 0), vec![0, 1]);
    assert_eq!(router.config.cache_threshold.bits, new.cache.threshold.bits);
    assert_eq!(router.config.balance_rel_threshold.bits, new.cache.balance_rel_threshold.bits);
    assert_eq!(router.config.match_abs_threshold, 8192);
    assert_eq!(router.config.balance_abs_threshold, 5);
    assert_eq!(router.config.max_tree_size, 1048576);
}

#[test]
fn a_reload_of_anything_else_is_refused() {
    let old = config(&["http://a"]);
    let mut new = config(&["http://a"]);
    new.proxy.max_retries = 9;
    assert_eq!(reload(&old, &new).err(), Some(vec![Section::Proxy]));
}

// ---- eviction ----

const DAY: u64 = 86400;

#[test]
fn passes_evict_down_to_the_configured_size() {
    let c = config(&["http://a"]).cache_config();
    assert!(eviction_enabled(&c));
    let mut schedule = EvictionSchedule::new();
    let pass = schedule.tick(&c, false, 5 * DAY);
    assert_eq!((pass.size, pass.full_cleanup, pass.last), (1048576, false, false));
    let pass = schedule.tick(&c, true, 5 * DAY);
    assert_eq!((pass.size, pass.full_cleanup, pass.last), (0, true, true));
    let mut off = c;
    off.eviction_interval_secs = 0;
    assert!(!eviction_enabled(&off));
}

#[test]
fn the_daily_cleanup_comes_once_a_day() {
    let mut c = config(&["http://a"]).cache_config();
    c.daily_cleanup_hour_utc = 3;
    let due = 3 * 3600 + 8 * 60;
    let mut schedule = EvictionSchedule::new();
    assert!(!schedule.tick(&c, false, 10 * DAY + due - 1).full_cleanup);
    let pass = schedule.tick(&c, false, 10 * DAY + due);
    assert_eq!((pass.size, pass.full_cleanup), (0, true));
    assert!(!schedule.tick(&c, false, 10 * DAY + due + 60).full_cleanup);
    assert!(!schedule.tick(&c, false, 11 * DAY).full_cleanup);
    assert!(schedule.tick(&c, false, 11 * DAY + due + 3600).full_cleanup);
}

#[test]
fn a_shutdown_is_no_daily_cleanup() {
    let mut c = config(&["http://a"]).cache_config();
    c.daily_cleanup_hour_utc = 0;
    let mut schedule = EvictionSchedule::new();
    assert!(schedule.tick(&c, true, DAY + 3600).full_cleanup);
    assert_eq!(schedule.last_cleanup_day, None);
    assert!(schedule.tick(&c, false, DAY + 3600).full_cleanup);
    assert_eq!(schedule.last_cleanup_day, Some(1));
}

// ---- the heap ----

#[test]
fn heap_profiles_need_profiling() {
    assert!(matches!(heap_dump(None, Some(true), 1, 2), HeapDump::NotCompiled));
    assert!(matches!(heap_dump(Some(false), Some(true), 1, 2), HeapDump::NotCompiled));
    assert!(matches!(heap_dump(Some(true), None, 1, 2), HeapDump::NotEnabled));
    match heap_dump(Some(true), Some(true), 42, 1700000000) {
        HeapDump::WriteTo(path) => assert_eq!(path, "/tmp/jeprof.42.1700000000.heap"),
        other => panic!("unexpected: {:?}", other),
    }
}

#[test]
fn arenas_are_purged_at_once_or_one_by_one() {
    assert_eq!(purge_control(ALL_ARENAS), "arena.4096.purge");
    assert!(purge_fallback(0, 3).is_empty());
    assert_eq!(purge_fallback(14, 2), vec!["arena.0.purge", "arena.1.purge"]);
}

#[test]
fn heap_sizes_never_underflow() {
    assert_eq!(fragmentation(10, 4), 6);
    assert_eq!(fragmentation(4, 10), 0);
    assert_eq!(freed(10, 4), 6);
    assert_eq!(freed(4, 10), 0);
}

// ---- texts ----

#[test]
fn texts() {
    assert_eq!(chars_of("aü世"), vec!['a', 'ü', '世']);
    assert!(starts_with("http://x", "http://"));
    assert!(starts_with("x", ""));
    assert!(!starts_with("http:/", "http://"));
    assert!(same_text("a", "a"));
    assert!(!same_text("a", "ab"));
    for n in [0u64, 7, 10, 4096, u64::MAX] {
        assert_eq!(decimal_string(n), n.to_string());
    }
}

#[test]
fn reports_have_no_effect() {
    metrics::record_request_routed("w");
    metrics::record_cache_hit("w");
    metrics::record_cache_miss();
    metrics::record_retry(1);
    metrics::record_circuit_breaker_trip("w");
    metrics::set_worker_load("w", 1);
    metrics::record_request_duration("w", Duration::from_secs(1));
    metrics::record_load_balancing_event();
    metrics::record_health_check("w", true);
}

#[test]
fn a_reading_that_fails_counts_as_zero_and_is_reported() {
    let mut errors = vec!["epoch::advance failed: x".to_string()];
    assert_eq!(stat_or_zero("allocated", Ok(7), &mut errors), 7);
    assert_eq!(errors.len(), 1);
    assert_eq!(stat_or_zero("active", Err("no such stat".to_string()), &mut errors), 0);
    assert_eq!(errors, ["epoch::advance failed: x", "active: no such stat"]);
}
