//! The points at which the router reports what it does. Nothing collects the
//! reports yet, so every point is empty.

use core::time::Duration;
use vstd::prelude::*;

verus! {

/// A request was sent to `_worker_url`.
#[inline(always)]
pub fn record_request_routed(_worker_url: &str) {
}

/// A request followed its prefix to `_worker_url`.
#[inline(always)]
pub fn record_cache_hit(_worker_url: &str) {
}

/// A request found no prefix to follow.
#[inline(always)]
pub fn record_cache_miss() {
}

/// The attempt `_attempt` is being repeated.
#[inline(always)]
pub fn record_retry(_attempt: u32) {
}

/// A request to `_worker_url` counted against its circuit breaker.
#[inline(always)]
pub fn record_circuit_breaker_trip(_worker_url: &str) {
}

/// `_worker_url` now has `_load` requests in flight.
#[inline(always)]
pub fn set_worker_load(_worker_url: &str, _load: usize) {
}

/// A request to `_worker_url` took `_duration`.
#[inline(always)]
pub fn record_request_duration(_worker_url: &str, _duration: Duration) {
}

/// Load won over cache affinity.
#[inline(always)]
pub fn record_load_balancing_event() {
}

/// `_worker_url` became `_healthy`, or ceased to be.
#[inline(always)]
pub fn record_health_check(_worker_url: &str, _healthy: bool) {
}

} // verus!
