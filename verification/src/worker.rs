//! A replica as the router sees it: its load, its health and its circuit
//! breaker.

use crate::circuit_breaker::{BreakerView, CircuitBreaker, CircuitBreakerConfig, CircuitState};
use crate::config::HealthConfig;
use crate::metrics;
use crate::text::{decimal, decimal_string};
use vstd::prelude::*;
use vstd::string::*;

verus! {

/// A replica as a mathematical value.
pub struct WorkerView {
    pub url: Seq<char>,
    /// The place in the pool.
    pub slot: nat,
    /// Requests in flight.
    pub load: nat,
    /// How many requests may be in flight.
    pub max_load: nat,
    /// What is added to the load when loads are compared.
    pub load_penalty: nat,
    pub healthy: bool,
    /// Health checks that failed in a row.
    pub failures: nat,
    /// Health checks that succeeded in a row.
    pub successes: nat,
    pub breaker: BreakerView,
    pub health: HealthConfig,
}

impl WorkerView {
    /// A replica that nothing has happened to, in the first place of its pool.
    pub open spec fn fresh(
        url: Seq<char>,
        max_load: nat,
        load_penalty: nat,
        health: HealthConfig,
        breaker: CircuitBreakerConfig,
    ) -> WorkerView {
        WorkerView {
            url,
            slot: 0,
            load: 0,
            max_load,
            load_penalty,
            healthy: true,
            failures: 0,
            successes: 0,
            breaker: BreakerView::fresh(breaker),
            health,
        }
    }

    /// Whether the replica may get a request at the moment `now`.
    pub open spec fn available(self, now: nat) -> bool {
        self.healthy && self.breaker.can_execute(now) && self.load < self.max_load
    }

    /// The load that counts when loads are compared.
    pub open spec fn effective_load(self) -> nat {
        if self.load + self.load_penalty > usize::MAX {
            usize::MAX as nat
        } else {
            self.load + self.load_penalty
        }
    }

    /// One request more in flight; the counter wraps around at the word size.
    pub open spec fn incremented(self) -> WorkerView {
        WorkerView { load: if self.load >= usize::MAX { 0 } else { self.load + 1 }, ..self }
    }

    /// One request less in flight; the counter stops at zero.
    pub open spec fn decremented(self) -> WorkerView {
        WorkerView { load: if self.load == 0 { 0 } else { (self.load - 1) as nat }, ..self }
    }

    /// After a health check that succeeded, or failed.
    pub open spec fn checked(self, ok: bool) -> WorkerView {
        if ok {
            WorkerView {
                successes: self.successes + 1,
                failures: 0,
                healthy: self.healthy || self.successes + 1 >= self.health.success_threshold,
                ..self
            }
        } else {
            WorkerView {
                failures: self.failures + 1,
                successes: 0,
                healthy: self.healthy && self.failures + 1 < self.health.failure_threshold,
                ..self
            }
        }
    }

    /// After a request whose outcome counts as `success`.
    pub open spec fn after_outcome(self, success: bool, now: nat) -> WorkerView {
        WorkerView { breaker: self.breaker.outcome(success, now), ..self }
    }
}

/// How a load is written: with its penalty, where there is one.
pub open spec fn display(load: nat, penalty: nat) -> Seq<char> {
    if penalty > 0 {
        decimal(load) + "(+"@ + decimal(penalty) + ")"@
    } else {
        decimal(load)
    }
}

/// A replica.
#[derive(Debug)]
pub struct Worker {
    url: String,
    slot: usize,
    load_counter: usize,
    max_load: usize,
    load_penalty: usize,
    healthy: bool,
    consecutive_failures: usize,
    consecutive_successes: usize,
    circuit_breaker: CircuitBreaker,
    health_config: HealthConfig,
}

impl View for Worker {
    type V = WorkerView;

    closed spec fn view(&self) -> WorkerView {
        WorkerView {
            url: self.url@,
            slot: self.slot as nat,
            load: self.load_counter as nat,
            max_load: self.max_load as nat,
            load_penalty: self.load_penalty as nat,
            healthy: self.healthy,
            failures: self.consecutive_failures as nat,
            successes: self.consecutive_successes as nat,
            breaker: self.circuit_breaker@,
            health: self.health_config,
        }
    }
}

impl Worker {
    pub closed spec fn wf(&self) -> bool {
        self.circuit_breaker.wf()
    }

    /// Whether another health check can be counted.
    pub open spec fn countable(&self) -> bool {
        self@.failures < usize::MAX && self@.successes < usize::MAX
    }

    pub fn new(
        url: String,
        max_load: usize,
        load_penalty: usize,
        health_config: HealthConfig,
        cb_config: CircuitBreakerConfig,
    ) -> (r: Self)
        ensures
            r.wf(),
            r@ == WorkerView::fresh(url@, max_load as nat, load_penalty as nat, health_config, cb_config),
    {
        Worker {
            url,
            slot: 0,
            load_counter: 0,
            max_load,
            load_penalty,
            healthy: true,
            consecutive_failures: 0,
            consecutive_successes: 0,
            circuit_breaker: CircuitBreaker::with_config(cb_config),
            health_config,
        }
    }

    /// Puts the replica in a place of its pool.
    pub fn place(&mut self, slot: usize)
        requires
            old(self).wf(),
        ensures
            final(self).wf(),
            final(self)@ == (WorkerView { slot: slot as nat, ..old(self)@ }),
    {
        self.slot = slot;
    }

    pub fn url(&self) -> (r: &str)
        ensures
            r@ == self@.url,
    {
        self.url.as_str()
    }

    /// Whether this is the address of the replica.
    pub fn has_url(&self, url: &String) -> (r: bool)
        ensures
            r == (self@.url == url@),
    {
        self.url == *url
    }

    pub fn is_healthy(&self) -> (r: bool)
        ensures
            r == self@.healthy,
    {
        self.healthy
    }

    /// Whether the replica may get a request: it is healthy, its breaker lets
    /// requests through, and its load is below its cap.
    pub fn is_available(&self, now_ns: u64) -> (r: bool)
        ensures
            r == self@.available(now_ns as nat),
    {
        self.is_healthy() && self.circuit_breaker.can_execute(now_ns) && self.load_counter < self.max_load
    }

    pub fn max_load(&self) -> (r: usize)
        ensures
            r == self@.max_load,
    {
        self.max_load
    }

    /// The number of requests in flight.
    pub fn load(&self) -> (r: usize)
        ensures
            r == self@.load,
    {
        self.load_counter
    }

    /// The load with the penalty, at most the largest word.
    pub fn effective_load(&self) -> (r: usize)
        ensures
            r == self@.effective_load(),
    {
        self.load().saturating_add(self.load_penalty)
    }

    pub fn load_penalty(&self) -> (r: usize)
        ensures
            r == self@.load_penalty,
    {
        self.load_penalty
    }

    /// The load as it is written in logs.
    pub fn load_display(&self) -> (r: String)
        ensures
            r@ == display(self@.load, self@.load_penalty),
    {
        let load = decimal_string(self.load() as u64);
        if self.load_penalty > 0 {
            load.concat("(+").concat(decimal_string(self.load_penalty as u64).as_str()).concat(")")
        } else {
            load
        }
    }

    pub fn increment_load(&mut self)
        requires
            old(self).wf(),
        ensures
            final(self).wf(),
            final(self)@ == old(self)@.incremented(),
    {
        self.load_counter = self.load_counter.wrapping_add(1);
        metrics::set_worker_load(self.url.as_str(), self.load_counter);
    }

    pub fn decrement_load(&mut self)
        requires
            old(self).wf(),
        ensures
            final(self).wf(),
            final(self)@ == old(self)@.decremented(),
    {
        if let Some(load) = self.load_counter.checked_sub(1) {
            self.load_counter = load;
        }
        metrics::set_worker_load(self.url.as_str(), self.load_counter);
    }

    pub fn circuit_breaker(&self) -> (r: &CircuitBreaker)
        ensures
            r@ == self@.breaker,
    {
        &self.circuit_breaker
    }

    /// The state of the circuit breaker.
    pub fn circuit_state(&self, now_ns: u64) -> (r: CircuitState)
        ensures
            r == self@.breaker.state_at(now_ns as nat),
    {
        self.circuit_breaker.state(now_ns)
    }

    /// Takes note of the outcome of a request.
    pub fn record_outcome(&mut self, success: bool, now_ns: u64)
        requires
            old(self).wf(),
        ensures
            final(self).wf(),
            final(self)@ == old(self)@.after_outcome(success, now_ns as nat),
    {
        self.circuit_breaker.record_outcome(success, now_ns);
        if !success {
            metrics::record_circuit_breaker_trip(self.url.as_str());
        }
    }

    /// The address that a health check asks.
    pub fn health_url(&self) -> (r: String)
        ensures
            r@ == self@.url + self@.health.endpoint@,
    {
        self.url.clone().concat(self.health_config.endpoint.as_str())
    }

    /// Seconds between two health checks.
    pub fn health_interval_secs(&self) -> (r: u64)
        ensures
            r == self@.health.interval_secs,
    {
        self.health_config.interval_secs
    }

    /// Whether another health check can be counted.
    pub fn can_count_health(&self) -> (r: bool)
        ensures
            r == self.countable(),
    {
        self.consecutive_failures < usize::MAX && self.consecutive_successes < usize::MAX
    }

    /// Takes note of a health check that was answered with success (`ok`), or
    /// with another status or not at all.
    pub fn check_health(&mut self, ok: bool) -> (r: bool)
        requires
            old(self).wf(),
            old(self).countable(),
        ensures
            r == ok,
            final(self).wf(),
            final(self)@ == old(self)@.checked(ok),
    {
        if ok {
            let successes = self.consecutive_successes + 1;
            self.consecutive_successes = successes;
            self.consecutive_failures = 0;
            if !self.healthy && successes >= self.health_config.success_threshold as usize {
                self.healthy = true;
                metrics::record_health_check(self.url.as_str(), true);
            }
            true
        } else {
            self.handle_health_failure();
            false
        }
    }

    /// Takes note of a health check that failed.
    pub fn handle_health_failure(&mut self)
        requires
            old(self).wf(),
            old(self).countable(),
        ensures
            final(self).wf(),
            final(self)@ == old(self)@.checked(false),
    {
        let failures = self.consecutive_failures + 1;
        self.consecutive_failures = failures;
        self.consecutive_successes = 0;
        if self.healthy && failures >= self.health_config.failure_threshold as usize {
            self.healthy = false;
            metrics::record_health_check(self.url.as_str(), false);
        }
    }
}

/// A request in flight: stands for one unit of the load of the replica with
/// this address in this place of the pool, and is given back through `release`
/// or handed on through `disarm`.
#[derive(Debug)]
pub struct LoadGuard {
    worker: String,
    slot: usize,
}

impl LoadGuard {
    /// The address of the replica that carries the load.
    pub closed spec fn worker_url(&self) -> Seq<char> {
        self.worker@
    }

    /// The place of the replica that carries the load.
    pub closed spec fn worker_slot(&self) -> usize {
        self.slot
    }

    /// Whether the guard stands for a request to this replica.
    pub open spec fn belongs_to(&self, w: WorkerView) -> bool {
        self.worker_url() == w.url && self.worker_slot() == w.slot
    }

    /// Adds one request to the load of `worker`.
    pub fn new(worker: &mut Worker) -> (r: Self)
        requires
            old(worker).wf(),
        ensures
            final(worker).wf(),
            final(worker)@ == old(worker)@.incremented(),
            r.belongs_to(old(worker)@),
    {
        worker.increment_load();
        LoadGuard { worker: worker.url.clone(), slot: worker.slot }
    }

    /// The place of the replica that carries the load.
    pub fn slot(&self) -> (r: usize)
        ensures
            r == self.worker_slot(),
    {
        self.slot
    }

    /// Whether the guard stands for a request to `worker`.
    pub fn covers(&self, worker: &Worker) -> (r: bool)
        ensures
            r == self.belongs_to(worker@),
    {
        self.worker == worker.url && self.slot == worker.slot
    }

    /// Takes the request off the load of its replica.
    pub fn release(self, worker: &mut Worker)
        requires
            old(worker).wf(),
            self.belongs_to(old(worker)@),
        ensures
            final(worker).wf(),
            final(worker)@ == old(worker)@.decremented(),
    {
        worker.decrement_load();
    }

    /// Gives up the guard without touching the load: whoever gets the place of
    /// the replica has to take the request off the load later.
    pub fn disarm(self) -> (r: usize)
        ensures
            r == self.worker_slot(),
    {
        self.slot
    }
}

// ---------------------------------------------------------------------------
// Laws
// ---------------------------------------------------------------------------

/// A request that came and went leaves the load as it was, unless the counter
/// was full.
pub proof fn lemma_load_balanced(w: WorkerView)
    requires
        w.load < usize::MAX,
    ensures
        w.incremented().decremented() == w,
        w.incremented().load == w.load + 1,
{
}

/// The load never falls below zero.
pub proof fn lemma_load_floor(w: WorkerView)
    requires
        w.load == 0,
    ensures
        w.decremented() == w,
{
}

/// What happens to the load of a replica.
pub enum LoadEvent {
    /// A request is forwarded to it.
    Start,
    /// A request ended, whether answered, failed or given up by the client.
    End,
}

/// A replica after some requests started and ended.
pub open spec fn after_events(w: WorkerView, events: Seq<LoadEvent>) -> WorkerView
    decreases events.len(),
{
    if events.len() == 0 {
        w
    } else {
        let before = after_events(w, events.drop_last());
        match events.last() {
            LoadEvent::Start => before.incremented(),
            LoadEvent::End => before.decremented(),
        }
    }
}

/// How many more requests started than ended.
pub open spec fn in_flight(events: Seq<LoadEvent>) -> int
    decreases events.len(),
{
    if events.len() == 0 {
        0
    } else {
        in_flight(events.drop_last()) + if events.last() is Start {
            1int
        } else {
            -1int
        }
    }
}

/// The load is the number of requests in flight, as long as none ends that did
/// not start and the counter does not run full.
pub proof fn lemma_load_counts_in_flight(w: WorkerView, events: Seq<LoadEvent>)
    requires
        w.load == 0,
        forall|k: int| 0 <= k <= events.len() ==> 0 <= #[trigger] in_flight(events.take(k)) <= usize::MAX,
    ensures
        after_events(w, events).load == in_flight(events),
        after_events(w, events) == (WorkerView { load: after_events(w, events).load, ..w }),
    decreases events.len(),
{
    assert(events.take(events.len() as int) =~= events);
    if events.len() > 0 {
        let head = events.drop_last();
        assert(events.take(events.len() - 1) =~= head);
        assert forall|k: int| 0 <= k <= head.len() implies 0 <= #[trigger] in_flight(head.take(k)) <= usize::MAX by {
            assert(head.take(k) =~= events.take(k));
        }
        lemma_load_counts_in_flight(w, head);
        assert(0 <= in_flight(events.take(events.len() - 1)) <= usize::MAX);
        assert(0 <= in_flight(events.take(events.len() as int)) <= usize::MAX);
    }
}

/// The penalty counts in comparisons only: it decides nothing about admission.
pub proof fn lemma_penalty_only_compares(w: WorkerView, penalty: nat, now: nat)
    ensures
        (WorkerView { load_penalty: penalty, ..w }).available(now) == w.available(now),
        w.effective_load() <= usize::MAX,
        w.load + w.load_penalty <= usize::MAX ==> w.effective_load() == w.load + w.load_penalty,
{
}

/// The replica after `n` health checks with the same answer.
pub open spec fn after_checks(w: WorkerView, ok: bool, n: nat) -> WorkerView
    decreases n,
{
    if n == 0 {
        w
    } else {
        after_checks(w, ok, (n - 1) as nat).checked(ok)
    }
}

/// A healthy replica becomes unhealthy with the failure that reaches the
/// threshold, and not before.
pub proof fn lemma_unhealthy_at_threshold(w: WorkerView, n: nat)
    requires
        w.healthy,
        w.failures == 0,
        n > 0,
    ensures
        after_checks(w, false, n).healthy <==> n < w.health.failure_threshold,
        after_checks(w, false, n).failures == n,
        after_checks(w, false, n).health == w.health,
    decreases n,
{
    if n > 1 {
        lemma_unhealthy_at_threshold(w, (n - 1) as nat);
    } else {
        assert(after_checks(w, false, 0) == w);
    }
}

/// An unhealthy replica comes back with the success that reaches the
/// threshold, and not before.
pub proof fn lemma_recovers_at_threshold(w: WorkerView, n: nat)
    requires
        !w.healthy,
        w.successes == 0,
        n > 0,
    ensures
        after_checks(w, true, n).healthy <==> n >= w.health.success_threshold,
        after_checks(w, true, n).successes == n,
        after_checks(w, true, n).health == w.health,
    decreases n,
{
    if n > 1 {
        lemma_recovers_at_threshold(w, (n - 1) as nat);
    } else {
        assert(after_checks(w, true, 0) == w);
    }
}

/// An answer of the other kind starts the count anew and never changes the
/// health of a replica for the worse, or for the better.
pub proof fn lemma_streak_resets(w: WorkerView)
    ensures
        w.checked(true).failures == 0,
        w.checked(false).successes == 0,
        w.healthy ==> w.checked(true).healthy,
        !w.healthy ==> !w.checked(false).healthy,
{
}

/// What it takes to get a request, field by field: the replica is healthy, it
/// has fewer requests in flight than its cap, and its breaker is not open, or
/// has been open for its time.
pub open spec fn admits(w: WorkerView, now: nat) -> bool {
    &&& w.healthy
    &&& w.load < w.max_load
    &&& w.breaker.state is Open ==> now >= w.breaker.opened_at + w.breaker.config.timeout_secs * 1_000_000_000
}

/// A replica is available exactly if it admits a request.
pub proof fn lemma_available(worker: &Worker, now_ns: u64, r: bool)
    requires
        call_ensures(Worker::is_available, (worker, now_ns), r),
    ensures
        r <==> admits(worker@, now_ns as nat),
        worker@.available(now_ns as nat) <==> admits(worker@, now_ns as nat),
{
}

/// A new replica is idle and healthy, its breaker is closed, and it has the
/// limits that it was given.
pub proof fn lemma_new_worker(
    url: String,
    max_load: usize,
    load_penalty: usize,
    health: HealthConfig,
    breaker: CircuitBreakerConfig,
    r: Worker,
)
    requires
        call_ensures(Worker::new, (url, max_load, load_penalty, health, breaker), r),
    ensures
        r@.url == url@,
        r@.max_load == max_load,
        r@.load_penalty == load_penalty,
        r@.health == health,
        r@.breaker.config == breaker,
        r@.load == 0,
        r@.healthy,
        r@.failures == 0,
        r@.successes == 0,
        r@.breaker.state is Closed,
        r@.breaker.failures == 0,
        forall|now: nat| max_load > 0 ==> #[trigger] admits(r@, now),
{
}

/// What a replica says of itself is what it is.
pub proof fn lemma_told(
    worker: &Worker,
    now_ns: u64,
    url: &str,
    healthy: bool,
    max_load: usize,
    load: usize,
    penalty: usize,
    state: CircuitState,
    interval: u64,
)
    requires
        call_ensures(Worker::url, (worker,), url),
        call_ensures(Worker::is_healthy, (worker,), healthy),
        call_ensures(Worker::max_load, (worker,), max_load),
        call_ensures(Worker::load, (worker,), load),
        call_ensures(Worker::load_penalty, (worker,), penalty),
        call_ensures(Worker::circuit_state, (worker, now_ns), state),
        call_ensures(Worker::health_interval_secs, (worker,), interval),
    ensures
        url@ == worker@.url,
        healthy == worker@.healthy,
        max_load == worker@.max_load,
        load == worker@.load,
        penalty == worker@.load_penalty,
        interval == worker@.health.interval_secs,
        state is Closed <==> worker@.breaker.state is Closed,
        state is Open <==> worker@.breaker.state is Open && now_ns < worker@.breaker.opened_at
            + worker@.breaker.config.timeout_secs * 1_000_000_000,
{
}

/// Loads are compared with the penalty added, up to the largest word.
pub proof fn lemma_compared_load(worker: &Worker, r: usize)
    requires
        call_ensures(Worker::effective_load, (worker,), r),
    ensures
        worker@.load + worker@.load_penalty <= usize::MAX ==> r == worker@.load + worker@.load_penalty,
        worker@.load + worker@.load_penalty > usize::MAX ==> r == usize::MAX,
        r == worker@.effective_load(),
{
}

/// A request that starts is counted, and nothing else changes. Only a counter
/// that is full starts anew.
pub proof fn lemma_start_counts(worker: &mut Worker)
    requires
        call_ensures(Worker::increment_load, (worker,), ()),
    ensures
        old(worker)@.load < usize::MAX ==> final(worker)@.load == old(worker)@.load + 1,
        old(worker)@.load == usize::MAX ==> final(worker)@.load == 0,
        final(worker)@ == (WorkerView { load: final(worker)@.load, ..old(worker)@ }),
{
}

/// A request that ends is counted off, down to zero, and nothing else changes.
pub proof fn lemma_end_counts(worker: &mut Worker)
    requires
        call_ensures(Worker::decrement_load, (worker,), ()),
    ensures
        old(worker)@.load > 0 ==> final(worker)@.load == old(worker)@.load - 1,
        old(worker)@.load == 0 ==> final(worker)@.load == 0,
        final(worker)@ == (WorkerView { load: final(worker)@.load, ..old(worker)@ }),
{
}

/// A guard adds one request to the load of its replica, knows where it belongs,
/// and takes the request off again.
pub proof fn lemma_guard(worker: &mut Worker, guard: LoadGuard, later: &mut Worker)
    requires
        call_ensures(LoadGuard::new, (worker,), guard),
        call_ensures(LoadGuard::release, (guard, later), ()),
    ensures
        old(worker)@.load < usize::MAX ==> final(worker)@.load == old(worker)@.load + 1,
        old(worker)@.load == usize::MAX ==> final(worker)@.load == 0,
        final(worker)@ == (WorkerView { load: final(worker)@.load, ..old(worker)@ }),
        guard.worker_url() == old(worker)@.url,
        guard.worker_slot() == old(worker)@.slot,
        old(later)@.load > 0 ==> final(later)@.load == old(later)@.load - 1,
        old(later)@.load == 0 ==> final(later)@.load == 0,
        final(later)@ == (WorkerView { load: final(later)@.load, ..old(later)@ }),
{
}

/// A guard stands for its replica only: the address and the place are the same.
pub proof fn lemma_guard_belongs(guard: LoadGuard, worker: &Worker, covers: bool, slot: usize, place: usize)
    requires
        call_ensures(LoadGuard::covers, (&guard, worker), covers),
        call_ensures(LoadGuard::slot, (&guard,), slot),
        call_ensures(LoadGuard::disarm, (guard,), place),
    ensures
        covers <==> guard.worker_url() == worker@.url && guard.worker_slot() == worker@.slot,
        slot == guard.worker_slot(),
        place == guard.worker_slot(),
{
}

/// An outcome is noted by the breaker; load and health stay as they are.
pub proof fn lemma_outcome_is_for_the_breaker(worker: &mut Worker, success: bool, now_ns: u64)
    requires
        call_ensures(Worker::record_outcome, (worker, success, now_ns), ()),
    ensures
        final(worker)@.breaker == old(worker)@.breaker.outcome(success, now_ns as nat),
        final(worker)@ == (WorkerView { breaker: final(worker)@.breaker, ..old(worker)@ }),
{
}

/// A health check that succeeds is counted and ends the row of failures. A
/// replica that was unhealthy is healthy again once there are as many as the
/// threshold says; one that was healthy stays so. Nothing else changes.
pub proof fn lemma_check_succeeds(worker: &mut Worker, r: bool)
    requires
        call_ensures(Worker::check_health, (worker, true), r),
    ensures
        r,
        final(worker)@.successes == old(worker)@.successes + 1,
        final(worker)@.failures == 0,
        old(worker)@.healthy ==> final(worker)@.healthy,
        !old(worker)@.healthy ==> (final(worker)@.healthy <==> old(worker)@.successes + 1
            >= old(worker)@.health.success_threshold),
        final(worker)@ == (WorkerView {
            successes: final(worker)@.successes,
            failures: final(worker)@.failures,
            healthy: final(worker)@.healthy,
            ..old(worker)@
        }),
{
}

/// A health check that fails is counted and ends the row of successes. A replica
/// that was healthy is unhealthy once there are as many as the threshold says;
/// one that was unhealthy stays so. Nothing else changes.
pub proof fn lemma_check_fails(worker: &mut Worker, r: bool, other: &mut Worker)
    requires
        call_ensures(Worker::check_health, (worker, false), r),
        call_ensures(Worker::handle_health_failure, (other,), ()),
        old(other)@ == old(worker)@,
    ensures
        !r,
        final(worker)@.failures == old(worker)@.failures + 1,
        final(worker)@.successes == 0,
        !old(worker)@.healthy ==> !final(worker)@.healthy,
        old(worker)@.healthy ==> (final(worker)@.healthy <==> old(worker)@.failures + 1
            < old(worker)@.health.failure_threshold),
        final(worker)@ == (WorkerView {
            successes: final(worker)@.successes,
            failures: final(worker)@.failures,
            healthy: final(worker)@.healthy,
            ..old(worker)@
        }),
        final(other)@ == final(worker)@,
{
}

/// A health check asks the endpoint at the address of the replica.
pub proof fn lemma_health_address(worker: &Worker, r: String)
    requires
        call_ensures(Worker::health_url, (worker,), r),
    ensures
        r@.len() == worker@.url.len() + worker@.health.endpoint@.len(),
        r@.take(worker@.url.len() as int) == worker@.url,
        r@.skip(worker@.url.len() as int) == worker@.health.endpoint@,
{
    assert(r@.take(worker@.url.len() as int) =~= worker@.url);
    assert(r@.skip(worker@.url.len() as int) =~= worker@.health.endpoint@);
}

/// The load is written as a number, and with its penalty where there is one.
pub proof fn lemma_load_written(worker: &Worker, r: String)
    requires
        call_ensures(Worker::load_display, (worker,), r),
    ensures
        worker@.load_penalty == 0 ==> r@ == decimal(worker@.load),
        worker@.load_penalty > 0 ==> r@ == decimal(worker@.load) + seq!['(', '+'] + decimal(worker@.load_penalty) + seq![
            ')',
        ],
{
    reveal_strlit("(+");
    reveal_strlit(")");
    assert("(+"@ =~= seq!['(', '+']);
    assert(")"@ =~= seq![')']);
}

/// A replica is moved to its place and stays what it is.
pub proof fn lemma_placed(worker: &mut Worker, slot: usize)
    requires
        call_ensures(Worker::place, (worker, slot), ()),
    ensures
        final(worker)@.slot == slot,
        final(worker)@ == (WorkerView { slot: final(worker)@.slot, ..old(worker)@ }),
{
}

/// An address is the replica's own if it is the same text, and its breaker is
/// the one that decides. A health check can be counted until a counter is full.
pub proof fn lemma_worker_asked(
    worker: &Worker,
    url: &String,
    same: bool,
    breaker: &CircuitBreaker,
    countable: bool,
)
    requires
        call_ensures(Worker::has_url, (worker, url), same),
        call_ensures(Worker::circuit_breaker, (worker,), breaker),
        call_ensures(Worker::can_count_health, (worker,), countable),
    ensures
        same <==> worker@.url =~= url@,
        breaker@ == worker@.breaker,
        countable <==> worker@.failures < usize::MAX && worker@.successes < usize::MAX,
{
}

} // verus!
