//! The circuit breaker of a replica: after too many failures in a row it stops
//! traffic for a while, then lets requests through on trial.
//!
//! Moments are nanoseconds on a clock that does not run backwards; the caller
//! reads that clock.

use vstd::prelude::*;

verus! {

/// Nanoseconds in a second.
pub const NANOS_PER_SEC: u64 = 1_000_000_000;

/// When a breaker opens, when it closes again, and how long it stays open.
#[derive(Clone, Copy, Debug)]
pub struct CircuitBreakerConfig {
    pub failure_threshold: u32,
    pub success_threshold: u32,
    pub timeout_secs: u64,
}

impl Default for CircuitBreakerConfig {
    fn default() -> (r: Self)
        ensures
            r.failure_threshold == 5,
            r.success_threshold == 2,
            r.timeout_secs == 30,
    {
        CircuitBreakerConfig { failure_threshold: 5, success_threshold: 2, timeout_secs: 30 }
    }
}

/// Whether requests pass.
#[derive(Clone, Copy, Debug, PartialEq, Eq, Structural)]
pub enum CircuitState {
    /// They pass.
    Closed,
    /// They do not.
    Open,
    /// They pass on trial.
    HalfOpen,
}

/// A circuit breaker as a mathematical value.
pub struct BreakerView {
    pub config: CircuitBreakerConfig,
    /// What the last transition left behind.
    pub state: CircuitState,
    /// Failures in a row while closed.
    pub failures: nat,
    /// Successes in a row while half open.
    pub successes: nat,
    /// When the breaker opened last.
    pub opened_at: nat,
}

impl BreakerView {
    /// A breaker that has seen nothing yet.
    pub open spec fn fresh(config: CircuitBreakerConfig) -> BreakerView {
        BreakerView { config, state: CircuitState::Closed, failures: 0, successes: 0, opened_at: 0 }
    }

    /// The state at the moment `now`: an open breaker is half open once its
    /// time has passed.
    pub open spec fn state_at(self, now: nat) -> CircuitState {
        if self.state == CircuitState::Open && now >= self.opened_at + self.config.timeout_secs * NANOS_PER_SEC {
            CircuitState::HalfOpen
        } else {
            self.state
        }
    }

    pub open spec fn can_execute(self, now: nat) -> bool {
        self.state_at(now) != CircuitState::Open
    }

    /// A breaker that opens at `now`.
    pub open spec fn tripped(self, now: nat) -> BreakerView {
        BreakerView { state: CircuitState::Open, failures: 0, successes: 0, opened_at: now, ..self }
    }

    /// What the outcome of a request at `now` makes of the breaker.
    pub open spec fn outcome(self, success: bool, now: nat) -> BreakerView {
        match self.state_at(now) {
            CircuitState::Closed => {
                if success {
                    BreakerView { failures: 0, ..self }
                } else if self.failures + 1 >= self.config.failure_threshold {
                    self.tripped(now)
                } else {
                    BreakerView { failures: self.failures + 1, ..self }
                }
            },
            CircuitState::HalfOpen => {
                if !success {
                    self.tripped(now)
                } else if self.successes + 1 >= self.config.success_threshold {
                    BreakerView { state: CircuitState::Closed, failures: 0, successes: 0, ..self }
                } else {
                    BreakerView { state: CircuitState::HalfOpen, successes: self.successes + 1, ..self }
                }
            },
            CircuitState::Open => self,
        }
    }
}

/// A circuit breaker.
#[derive(Clone, Copy, Debug)]
pub struct CircuitBreaker {
    config: CircuitBreakerConfig,
    state: CircuitState,
    failures: u32,
    successes: u32,
    opened_at: u64,
}

impl View for CircuitBreaker {
    type V = BreakerView;

    closed spec fn view(&self) -> BreakerView {
        BreakerView {
            config: self.config,
            state: self.state,
            failures: self.failures as nat,
            successes: self.successes as nat,
            opened_at: self.opened_at as nat,
        }
    }
}

impl CircuitBreaker {
    /// The counters stay below the thresholds that would act on them.
    pub closed spec fn wf(&self) -> bool {
        &&& self.failures == 0 || self.failures < self.config.failure_threshold
        &&& self.successes == 0 || self.successes < self.config.success_threshold
    }

    /// A closed breaker.
    pub fn with_config(config: CircuitBreakerConfig) -> (r: Self)
        ensures
            r.wf(),
            r@ == BreakerView::fresh(config),
    {
        CircuitBreaker { config, state: CircuitState::Closed, failures: 0, successes: 0, opened_at: 0 }
    }

    /// The state at the moment `now_ns`.
    pub fn state(&self, now_ns: u64) -> (r: CircuitState)
        ensures
            r == self@.state_at(now_ns as nat),
    {
        if self.state == CircuitState::Open {
            let span: u128 = (self.config.timeout_secs as u128) * (NANOS_PER_SEC as u128);
            if now_ns as u128 >= self.opened_at as u128 + span {
                return CircuitState::HalfOpen;
            }
        }
        self.state
    }

    /// Whether a request may pass at the moment `now_ns`.
    pub fn can_execute(&self, now_ns: u64) -> (r: bool)
        ensures
            r == self@.can_execute(now_ns as nat),
    {
        self.state(now_ns) != CircuitState::Open
    }

    /// Takes note of the outcome of a request.
    pub fn record_outcome(&mut self, success: bool, now_ns: u64)
        requires
            old(self).wf(),
        ensures
            final(self).wf(),
            final(self)@ == old(self)@.outcome(success, now_ns as nat),
    {
        match self.state(now_ns) {
            CircuitState::Closed => {
                if success {
                    self.failures = 0;
                } else if self.failures + 1 >= self.config.failure_threshold {
                    self.trip(now_ns);
                } else {
                    self.failures = self.failures + 1;
                }
            },
            CircuitState::HalfOpen => {
                if !success {
                    self.trip(now_ns);
                } else if self.successes + 1 >= self.config.success_threshold {
                    self.state = CircuitState::Closed;
                    self.failures = 0;
                    self.successes = 0;
                } else {
                    self.state = CircuitState::HalfOpen;
                    self.successes = self.successes + 1;
                }
            },
            CircuitState::Open => {},
        }
    }

    fn trip(&mut self, now_ns: u64)
        ensures
            final(self).wf(),
            final(self)@ == old(self)@.tripped(now_ns as nat),
    {
        self.state = CircuitState::Open;
        self.failures = 0;
        self.successes = 0;
        self.opened_at = now_ns;
    }
}

// ---------------------------------------------------------------------------
// Laws
// ---------------------------------------------------------------------------

/// The breaker after `n` outcomes that are all `success`, all at `now`.
pub open spec fn after_outcomes(b: BreakerView, success: bool, now: nat, n: nat) -> BreakerView
    decreases n,
{
    if n == 0 {
        b
    } else {
        after_outcomes(b, success, now, (n - 1) as nat).outcome(success, now)
    }
}

/// As many failures in a row as the threshold says open a fresh breaker, and
/// fewer do not.
pub proof fn lemma_opens_at_threshold(config: CircuitBreakerConfig, now: nat, n: nat)
    requires
        config.failure_threshold > 0,
        n <= config.failure_threshold,
    ensures
        ({
            let b = after_outcomes(BreakerView::fresh(config), false, now, n);
            if n < config.failure_threshold {
                b.state == CircuitState::Closed && b.failures == n && b.config == config
            } else {
                b == BreakerView::fresh(config).tripped(now)
            }
        }),
    decreases n,
{
    if n > 0 {
        lemma_opens_at_threshold(config, now, (n - 1) as nat);
        let b = after_outcomes(BreakerView::fresh(config), false, now, (n - 1) as nat);
        assert(b.successes == 0 && b.opened_at == 0) by {
            lemma_closed_keeps(config, now, (n - 1) as nat);
        }
    }
}

proof fn lemma_closed_keeps(config: CircuitBreakerConfig, now: nat, n: nat)
    requires
        config.failure_threshold > 0,
        n < config.failure_threshold,
    ensures
        after_outcomes(BreakerView::fresh(config), false, now, n) == (BreakerView {
            failures: n,
            ..BreakerView::fresh(config)
        }),
    decreases n,
{
    if n > 0 {
        lemma_closed_keeps(config, now, (n - 1) as nat);
    }
}

/// An open breaker stops all requests until its time has passed, whatever
/// outcomes of earlier requests still come in, and lets them through after.
pub proof fn lemma_open_for_timeout(b: BreakerView, success: bool, t: nat, now: nat)
    requires
        b.state == CircuitState::Open,
        t < b.opened_at + b.config.timeout_secs * NANOS_PER_SEC,
    ensures
        b.outcome(success, t) == b,
        b.can_execute(now) <==> now >= b.opened_at + b.config.timeout_secs * NANOS_PER_SEC,
{
}

/// Once its time has passed, as many successes as the threshold says close an
/// open breaker, and fewer leave it on trial.
pub proof fn lemma_closes_at_threshold(b: BreakerView, now: nat, n: nat)
    requires
        b.state == CircuitState::Open,
        b.failures == 0,
        b.successes == 0,
        b.can_execute(now),
        0 < n <= b.config.success_threshold,
    ensures
        ({
            let c = after_outcomes(b, true, now, n);
            if n < b.config.success_threshold {
                c == (BreakerView { state: CircuitState::HalfOpen, successes: n, ..b })
            } else {
                c == (BreakerView { state: CircuitState::Closed, ..b })
            }
        }),
    decreases n,
{
    if n > 1 {
        lemma_closes_at_threshold(b, now, (n - 1) as nat);
    } else {
        assert(after_outcomes(b, true, now, 0) == b);
    }
}

/// One failure on trial opens the breaker again for its full time.
pub proof fn lemma_trial_failure_reopens(b: BreakerView, now: nat)
    requires
        b.state_at(now) == CircuitState::HalfOpen,
    ensures
        b.outcome(false, now) == b.tripped(now),
{
}

/// A breaker stops requests only while it is open and its time has not passed:
/// on trial, however it came to that, requests pass as they do while it is
/// closed.
pub proof fn lemma_stops_only_while_open(breaker: &CircuitBreaker, now_ns: u64, r: bool)
    requires
        call_ensures(CircuitBreaker::can_execute, (breaker, now_ns), r),
    ensures
        !r <==> breaker@.state is Open && now_ns < breaker@.opened_at + breaker@.config.timeout_secs * 1_000_000_000,
{
}

/// What the state of a breaker is at a moment: only the passing of its time
/// changes it, from open to trial, and requests pass exactly if it is not open.
pub proof fn lemma_state_at_moment(breaker: &CircuitBreaker, now_ns: u64, r: CircuitState, passes: bool)
    requires
        call_ensures(CircuitBreaker::state, (breaker, now_ns), r),
        call_ensures(CircuitBreaker::can_execute, (breaker, now_ns), passes),
    ensures
        breaker@.state is Closed ==> r is Closed,
        breaker@.state is HalfOpen ==> r is HalfOpen,
        breaker@.state is Open ==> (r is HalfOpen <==> now_ns >= breaker@.opened_at + breaker@.config.timeout_secs
            * 1_000_000_000),
        breaker@.state is Open ==> r is HalfOpen || r is Open,
        passes <==> !(r is Open),
{
}

/// A new breaker lets requests through at every moment, and has counted nothing.
pub proof fn lemma_new_breaker(config: CircuitBreakerConfig, r: CircuitBreaker, now_ns: u64, passes: bool)
    requires
        call_ensures(CircuitBreaker::with_config, (config,), r),
        call_ensures(CircuitBreaker::can_execute, (&r, now_ns), passes),
    ensures
        passes,
        r@.state is Closed,
        r@.config == config,
        r@.failures == 0,
        r@.successes == 0,
{
}

/// What an outcome does while requests pass as usual: a success starts the count
/// of failures anew, a failure is counted, and the one that reaches the
/// threshold opens the breaker from this moment on.
pub proof fn lemma_outcome_while_closed(breaker: &mut CircuitBreaker, success: bool, now_ns: u64)
    requires
        old(breaker)@.state is Closed,
        call_ensures(CircuitBreaker::record_outcome, (breaker, success, now_ns), ()),
    ensures
        final(breaker)@.config == old(breaker)@.config,
        success ==> final(breaker)@ == (BreakerView { failures: 0, ..old(breaker)@ }),
        !success && old(breaker)@.failures + 1 < old(breaker)@.config.failure_threshold ==> final(breaker)@
            == (BreakerView { failures: old(breaker)@.failures + 1, ..old(breaker)@ }),
        !success && old(breaker)@.failures + 1 >= old(breaker)@.config.failure_threshold ==> {
            &&& final(breaker)@.state is Open
            &&& final(breaker)@.opened_at == now_ns
            &&& final(breaker)@.failures == 0
            &&& final(breaker)@.successes == 0
        },
{
}

/// What an outcome does on trial: a failure opens the breaker for its full time
/// again, a success is counted, and the one that reaches the threshold closes it
/// with a clean slate.
pub proof fn lemma_outcome_on_trial(breaker: &mut CircuitBreaker, success: bool, now_ns: u64)
    requires
        old(breaker)@.state is HalfOpen || old(breaker)@.state is Open && now_ns >= old(breaker)@.opened_at
            + old(breaker)@.config.timeout_secs * 1_000_000_000,
        call_ensures(CircuitBreaker::record_outcome, (breaker, success, now_ns), ()),
    ensures
        final(breaker)@.config == old(breaker)@.config,
        !success ==> {
            &&& final(breaker)@.state is Open
            &&& final(breaker)@.opened_at == now_ns
            &&& final(breaker)@.failures == 0
            &&& final(breaker)@.successes == 0
        },
        success && old(breaker)@.successes + 1 < old(breaker)@.config.success_threshold ==> {
            &&& final(breaker)@.state is HalfOpen
            &&& final(breaker)@.successes == old(breaker)@.successes + 1
            &&& final(breaker)@.failures == old(breaker)@.failures
        },
        success && old(breaker)@.successes + 1 >= old(breaker)@.config.success_threshold ==> {
            &&& final(breaker)@.state is Closed
            &&& final(breaker)@.failures == 0
            &&& final(breaker)@.successes == 0
        },
{
}

/// While the breaker is open, outcomes of earlier requests change nothing.
pub proof fn lemma_outcome_while_open(breaker: &mut CircuitBreaker, success: bool, now_ns: u64)
    requires
        old(breaker)@.state is Open,
        now_ns < old(breaker)@.opened_at + old(breaker)@.config.timeout_secs * 1_000_000_000,
        call_ensures(CircuitBreaker::record_outcome, (breaker, success, now_ns), ()),
    ensures
        final(breaker)@ == old(breaker)@,
{
}

/// The defaults: five failures open a breaker for thirty seconds, and two
/// successes close it.
pub proof fn lemma_default_breaker(r: CircuitBreakerConfig)
    requires
        call_ensures(CircuitBreakerConfig::default, (), r),
    ensures
        r.failure_threshold == 5,
        r.success_threshold == 2,
        r.timeout_secs == 30,
{
}

/// The breaker after outcomes that are all `success`, at these moments.
pub open spec fn after_outcomes_at(b: BreakerView, success: bool, moments: Seq<nat>) -> BreakerView
    decreases moments.len(),
{
    if moments.len() == 0 {
        b
    } else {
        after_outcomes_at(b, success, moments.drop_last()).outcome(success, moments.last())
    }
}

/// Failures in a row, whenever they come, are let pass until there are as many
/// as the threshold says; then requests are stopped from that moment on until
/// the time has passed.
pub proof fn lemma_failures_in_a_row_open(b: BreakerView, moments: Seq<nat>, now: nat)
    requires
        b.state is Closed,
        b.failures == 0,
        0 < moments.len() <= b.config.failure_threshold,
    ensures
        moments.len() < b.config.failure_threshold ==> after_outcomes_at(b, false, moments).can_execute(now),
        moments.len() == b.config.failure_threshold ==> (after_outcomes_at(b, false, moments).can_execute(now) <==> now
            >= moments.last() + b.config.timeout_secs * 1_000_000_000),
{
    lemma_failures_counted(b, moments.drop_last());
}

proof fn lemma_failures_counted(b: BreakerView, moments: Seq<nat>)
    requires
        b.state is Closed,
        b.failures == 0,
        moments.len() < b.config.failure_threshold,
    ensures
        after_outcomes_at(b, false, moments) == (BreakerView { failures: moments.len(), ..b }),
    decreases moments.len(),
{
    if moments.len() > 0 {
        lemma_failures_counted(b, moments.drop_last());
    }
}

/// On trial requests pass at every moment until there are as many successes as
/// the threshold says; then the breaker is closed, and it takes the full number
/// of failures to open it again.
pub proof fn lemma_successes_on_trial_close(b: BreakerView, moments: Seq<nat>, now: nat)
    requires
        b.state is Open,
        b.failures == 0,
        b.successes == 0,
        forall|i: int|
            0 <= i < moments.len() ==> #[trigger] moments[i] >= b.opened_at + b.config.timeout_secs * 1_000_000_000,
        0 < moments.len() <= b.config.success_threshold,
    ensures
        after_outcomes_at(b, true, moments).can_execute(now),
        moments.len() < b.config.success_threshold ==> after_outcomes_at(b, true, moments).state is HalfOpen,
        moments.len() == b.config.success_threshold ==> after_outcomes_at(b, true, moments).state is Closed
            && after_outcomes_at(b, true, moments).failures == 0,
        after_outcomes_at(b, true, moments).config == b.config,
{
    let head = moments.drop_last();
    assert forall|i: int| 0 <= i < head.len() implies #[trigger] head[i] >= b.opened_at + b.config.timeout_secs
        * 1_000_000_000 by {
        assert(moments[i] >= b.opened_at + b.config.timeout_secs * 1_000_000_000);
    }
    assert(moments[moments.len() - 1] >= b.opened_at + b.config.timeout_secs * 1_000_000_000);
    lemma_successes_counted(b, head);
}

proof fn lemma_successes_counted(b: BreakerView, moments: Seq<nat>)
    requires
        b.state is Open,
        b.failures == 0,
        b.successes == 0,
        forall|i: int|
            0 <= i < moments.len() ==> #[trigger] moments[i] >= b.opened_at + b.config.timeout_secs * 1_000_000_000,
        moments.len() < b.config.success_threshold,
    ensures
        after_outcomes_at(b, true, moments) == if moments.len() == 0 {
            b
        } else {
            BreakerView { state: CircuitState::HalfOpen, successes: moments.len(), ..b }
        },
    decreases moments.len(),
{
    if moments.len() > 0 {
        let head = moments.drop_last();
        assert forall|i: int| 0 <= i < head.len() implies #[trigger] head[i] >= b.opened_at + b.config.timeout_secs
            * 1_000_000_000 by {
            assert(moments[i] >= b.opened_at + b.config.timeout_secs * 1_000_000_000);
        }
        assert(moments[moments.len() - 1] >= b.opened_at + b.config.timeout_secs * 1_000_000_000);
        lemma_successes_counted(b, head);
    }
}

} // verus!
