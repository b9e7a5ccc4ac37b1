//! What the endpoints of the router answer: health, replicas, and the list of
//! models with its cache.

use crate::circuit_breaker::CircuitState;
use crate::pool::{compared, views, Pool};
use crate::worker::{admits, Worker, WorkerView};
use vstd::prelude::*;
use vstd::string::*;

verus! {

/// How long a list of models may be answered from the cache.
pub const MODELS_CACHE_TTL_NS: u64 = 600_000_000_000;

/// How many bytes a list of models may have.
pub const MODELS_BODY_LIMIT: usize = 8192;

/// Whether `status` is a success of HTTP.
pub open spec fn is_success(status: u16) -> bool {
    200 <= status <= 299
}

/// The last list of models that was fetched.
#[derive(Debug)]
pub struct ModelsCache {
    entry: Option<ModelsEntry>,
}

#[derive(Debug)]
struct ModelsEntry {
    bytes: Vec<u8>,
    fetched_at_ns: u64,
}

/// What becomes of an answer to a request for the list of models.
#[derive(Clone, Copy, Debug, PartialEq, Eq, Structural)]
pub enum Fetched {
    /// The answer was no success and is passed on.
    PassThrough,
    /// The answer cannot be used: it is empty, too long or was cut short.
    Unusable,
    /// The answer is in the cache.
    Stored,
}

impl ModelsCache {
    /// The bytes in the cache.
    pub closed spec fn content(&self) -> Option<Seq<u8>> {
        match self.entry {
            Some(e) => Some(e.bytes@),
            None => None,
        }
    }

    /// When the bytes in the cache were fetched.
    pub closed spec fn fetched_at(&self) -> Option<u64> {
        match self.entry {
            Some(e) => Some(e.fetched_at_ns),
            None => None,
        }
    }

    /// What is in the cache is not empty.
    pub closed spec fn wf(&self) -> bool {
        self.entry matches Some(e) ==> e.bytes@.len() > 0
    }

    /// Whether the list has to be fetched at the moment `now`.
    pub open spec fn spec_expired(&self, now: u64) -> bool {
        match self.fetched_at() {
            Some(at) => now - at >= MODELS_CACHE_TTL_NS,
            None => true,
        }
    }

    /// An empty cache.
    pub fn new() -> (r: Self)
        ensures
            r.wf(),
            r.content() is None,
            r.fetched_at() is None,
    {
        ModelsCache { entry: None }
    }

    /// Whether the list has to be fetched.
    pub fn expired(&self, now_ns: u64) -> (r: bool)
        ensures
            r == self.spec_expired(now_ns),
    {
        match &self.entry {
            Some(e) => now_ns.saturating_sub(e.fetched_at_ns) >= MODELS_CACHE_TTL_NS,
            None => true,
        }
    }

    /// Takes an answer of a replica. `body` is nothing if it could not be read.
    pub fn store(&mut self, status: u16, body: Option<Vec<u8>>, now_ns: u64) -> (r: Fetched)
        requires
            old(self).wf(),
        ensures
            final(self).wf(),
            r == Fetched::PassThrough <==> !is_success(status),
            r == Fetched::Stored <==> is_success(status) && body is Some && 0 < body->0@.len()
                <= MODELS_BODY_LIMIT,
            final(self).content() == if r == Fetched::Stored {
                Some(body->0@)
            } else {
                old(self).content()
            },
            final(self).fetched_at() == if r == Fetched::Stored {
                Some(now_ns)
            } else {
                old(self).fetched_at()
            },
    {
        if !(200 <= status && status <= 299) {
            return Fetched::PassThrough;
        }
        match body {
            Some(bytes) => {
                if bytes.len() == 0 || bytes.len() > MODELS_BODY_LIMIT {
                    return Fetched::Unusable;
                }
                self.entry = Some(ModelsEntry { bytes, fetched_at_ns: now_ns });
                Fetched::Stored
            },
            None => Fetched::Unusable,
        }
    }

    /// The list in the cache, if there is one.
    pub fn bytes(&self) -> (r: Option<&Vec<u8>>)
        requires
            self.wf(),
        ensures
            match r {
                Some(bytes) => self.content() == Some(bytes@) && bytes@.len() > 0,
                None => self.content() is None,
            },
    {
        match &self.entry {
            Some(e) => Some(&e.bytes),
            None => None,
        }
    }
}

/// A list of models is answered from the cache for less than ten minutes after
/// it was fetched, and never later.
pub proof fn lemma_models_ttl(cache: &ModelsCache, now: u64)
    requires
        cache.fetched_at() is Some,
    ensures
        cache.spec_expired(now) <==> now >= cache.fetched_at()->0 + 600 * 1_000_000_000,
{
}

/// How many replicas there are, and how many of them are healthy.
#[derive(Clone, Copy, Debug)]
pub struct HealthReport {
    /// The status to answer with.
    pub status: u16,
    pub healthy_workers: usize,
    pub total_workers: usize,
}

/// The replicas that are healthy.
pub open spec fn healthy_count(pool: Seq<WorkerView>) -> nat
    decreases pool.len(),
{
    if pool.len() == 0 {
        0
    } else {
        healthy_count(pool.drop_last()) + if pool.last().healthy {
            1nat
        } else {
            0nat
        }
    }
}

/// Reports on the health of the pool: success if any replica is healthy.
pub fn health_report(pool: &Pool) -> (r: HealthReport)
    ensures
        r.healthy_workers == healthy_count(pool@),
        r.total_workers == pool@.len(),
        r.status == if healthy_count(pool@) > 0 {
            200u16
        } else {
            503u16
        },
{
    let workers: &Vec<Worker> = pool.workers();
    let ghost all = pool@;
    let mut count: usize = 0;
    let mut i: usize = 0;
    assert(all.take(0).len() == 0);
    while i < workers.len()
        invariant
            all == views(workers@),
            i <= workers@.len(),
            count <= i,
            count == healthy_count(all.take(i as int)),
        decreases workers.len() - i,
    {
        proof {
            assert(all.take(i + 1).drop_last() =~= all.take(i as int));
            assert(all.take(i + 1).last() == workers@[i as int]@);
        }
        if workers[i].is_healthy() {
            count += 1;
        }
        i += 1;
    }
    assert(all.take(workers@.len() as int) =~= all);
    let status: u16 = if count > 0 {
        200
    } else {
        503
    };
    HealthReport { status, healthy_workers: count, total_workers: workers.len() }
}

/// Health is reported as long as any replica is healthy, and only then.
pub proof fn lemma_healthy_if_any(pool: Seq<WorkerView>)
    ensures
        healthy_count(pool) <= pool.len(),
        healthy_count(pool) > 0 <==> exists|i: int| 0 <= i < pool.len() && (#[trigger] pool[i]).healthy,
    decreases pool.len(),
{
    if pool.len() > 0 {
        let head = pool.drop_last();
        lemma_healthy_if_any(head);
        if pool.last().healthy {
            assert(pool[pool.len() - 1].healthy);
        }
        if exists|i: int| 0 <= i < head.len() && (#[trigger] head[i]).healthy {
            let i = choose|i: int| 0 <= i < head.len() && (#[trigger] head[i]).healthy;
            assert(pool[i].healthy);
        }
        if exists|i: int| 0 <= i < pool.len() && (#[trigger] pool[i]).healthy {
            let i = choose|i: int| 0 <= i < pool.len() && (#[trigger] pool[i]).healthy;
            if i < head.len() {
                assert(head[i].healthy);
            }
        }
    }
}

/// What is told of a replica.
#[derive(Debug)]
pub struct WorkerReport {
    pub url: String,
    pub healthy: bool,
    pub available: bool,
    pub load: usize,
    pub effective_load: usize,
    pub load_penalty: usize,
    pub max_load: usize,
    pub circuit_breaker_state: String,
}

/// The name of a state of a circuit breaker.
pub open spec fn state_name(state: CircuitState) -> Seq<char> {
    match state {
        CircuitState::Closed => "Closed"@,
        CircuitState::Open => "Open"@,
        CircuitState::HalfOpen => "HalfOpen"@,
    }
}

impl WorkerReport {
    /// Whether this tells of a replica what holds at the moment `now`.
    pub open spec fn tells(&self, w: WorkerView, now: nat) -> bool {
        &&& self.url@ == w.url
        &&& self.healthy == w.healthy
        &&& self.available == w.available(now)
        &&& self.load == w.load
        &&& self.effective_load == w.effective_load()
        &&& self.load_penalty == w.load_penalty
        &&& self.max_load == w.max_load
        &&& self.circuit_breaker_state@ == state_name(w.breaker.state_at(now))
    }
}

/// Reports on a replica.
pub fn worker_report(worker: &Worker, now_ns: u64) -> (r: WorkerReport)
    ensures
        r.tells(worker@, now_ns as nat),
{
    let state = match worker.circuit_state(now_ns) {
        CircuitState::Closed => "Closed",
        CircuitState::Open => "Open",
        CircuitState::HalfOpen => "HalfOpen",
    };
    WorkerReport {
        url: worker.url().to_owned(),
        healthy: worker.is_healthy(),
        available: worker.is_available(now_ns),
        load: worker.load(),
        effective_load: worker.effective_load(),
        load_penalty: worker.load_penalty(),
        max_load: worker.max_load(),
        circuit_breaker_state: state.to_owned(),
    }
}

/// Reports on all replicas, in their order.
pub fn worker_reports(pool: &Pool, now_ns: u64) -> (r: Vec<WorkerReport>)
    ensures
        r@.len() == pool@.len(),
        forall|i: int| 0 <= i < r@.len() ==> (#[trigger] r@[i]).tells(pool@[i], now_ns as nat),
{
    let workers: &Vec<Worker> = pool.workers();
    let ghost all = pool@;
    let mut reports: Vec<WorkerReport> = Vec::new();
    let mut i: usize = 0;
    while i < workers.len()
        invariant
            all == views(workers@),
            i <= workers@.len(),
            reports@.len() == i,
            forall|j: int| 0 <= j < i ==> (#[trigger] reports@[j]).tells(all[j], now_ns as nat),
        decreases workers.len() - i,
    {
        assert(all[i as int] == workers@[i as int]@);
        reports.push(worker_report(&workers[i], now_ns));
        i += 1;
    }
    reports
}

/// A list of models that is in the cache is fresh for ten minutes; without one,
/// it has to be fetched.
pub proof fn lemma_models_expire(cache: &ModelsCache, now: u64, r: bool)
    requires
        call_ensures(ModelsCache::expired, (cache, now), r),
    ensures
        cache.fetched_at() is None ==> r,
        cache.fetched_at() matches Some(at) ==> (r <==> now >= at + 600_000_000_000),
{
}

/// A new cache holds nothing.
pub proof fn lemma_models_nothing(cache: ModelsCache)
    requires
        call_ensures(ModelsCache::new, (), cache),
    ensures
        cache.content() is None,
        cache.fetched_at() is None,
{
}

/// What goes into the cache is what a success brought, if it is neither empty
/// nor over eight kibibytes, with the moment at which it came. Nothing else
/// changes the cache. An answer that is no success is passed on.
pub proof fn lemma_models_stored(
    cache: &mut ModelsCache,
    status: u16,
    body: Option<Vec<u8>>,
    now: u64,
    r: Fetched,
)
    requires
        call_ensures(ModelsCache::store, (cache, status, body, now), r),
    ensures
        status < 200 || status > 299 ==> r is PassThrough,
        200 <= status <= 299 && body is None ==> r is Unusable,
        200 <= status <= 299 && body is Some && 1 <= body->0@.len() <= 8192 ==> r is Stored,
        200 <= status <= 299 && body is Some && (body->0@.len() == 0 || body->0@.len() > 8192) ==> r is Unusable,
        r is Stored ==> final(cache).content() == Some(body->0@) && final(cache).fetched_at() == Some(now),
        r !is Stored ==> final(cache).content() == old(cache).content() && final(cache).fetched_at() == old(
            cache,
        ).fetched_at(),
{
}

/// What is read from the cache is what was put in last.
pub proof fn lemma_models_read_back(
    cache: &mut ModelsCache,
    status: u16,
    body: Option<Vec<u8>>,
    now: u64,
    r: Fetched,
    read: Option<&Vec<u8>>,
    later: u64,
    expired: bool,
)
    requires
        call_ensures(ModelsCache::store, (cache, status, body, now), r),
        r is Stored,
        call_ensures(ModelsCache::bytes, (final(cache),), read),
        call_ensures(ModelsCache::expired, (final(cache), later), expired),
    ensures
        read is Some,
        read->0@ == body->0@,
        expired <==> later >= now + 600_000_000_000,
{
}

/// The places of the replicas that are healthy.
pub open spec fn healthy_places(pool: Seq<WorkerView>) -> Set<int> {
    Set::range(0, pool.len() as int).filter(|i: int| pool[i].healthy)
}

proof fn lemma_healthy_places(pool: Seq<WorkerView>)
    ensures
        healthy_places(pool).finite(),
        healthy_places(pool).len() == healthy_count(pool),
    decreases pool.len(),
{
    let places = healthy_places(pool);
    if pool.len() == 0 {
        assert(places =~= Set::empty());
    } else {
        let n = pool.len() - 1;
        let head = healthy_places(pool.drop_last());
        lemma_healthy_places(pool.drop_last());
        if pool.last().healthy {
            assert(places =~= head.insert(n));
        } else {
            assert(places =~= head);
        }
    }
}

/// The router is well while any replica is healthy. It tells how many are, of
/// how many there are.
pub proof fn lemma_health_answer(pool: &Pool, r: HealthReport)
    requires
        call_ensures(health_report, (pool,), r),
    ensures
        r.total_workers == pool@.len(),
        r.healthy_workers == healthy_places(pool@).len(),
        r.status == 200 || r.status == 503,
        r.status == 200 <==> exists|i: int| 0 <= i < pool@.len() && (#[trigger] pool@[i]).healthy,
{
    lemma_healthy_places(pool@);
    lemma_healthy_if_any(pool@);
}

/// What is told of a replica is what holds of it: field by field, and the state
/// of its breaker by name.
pub open spec fn told_of(r: &WorkerReport, w: WorkerView, now: nat) -> bool {
    let passed = now >= w.breaker.opened_at + w.breaker.config.timeout_secs * 1_000_000_000;
    &&& r.url@ == w.url
    &&& r.healthy <==> w.healthy
    &&& r.available <==> admits(w, now)
    &&& r.load == w.load
    &&& r.effective_load == compared(w)
    &&& r.load_penalty == w.load_penalty
    &&& r.max_load == w.max_load
    &&& w.breaker.state is Closed ==> r.circuit_breaker_state@ == "Closed"@
    &&& w.breaker.state is HalfOpen ==> r.circuit_breaker_state@ == "HalfOpen"@
    &&& w.breaker.state is Open ==> r.circuit_breaker_state@ == if passed {
        "HalfOpen"@
    } else {
        "Open"@
    }
}

/// Every replica is told of, in its place, as it is.
pub proof fn lemma_told_of(
    pool: &Pool,
    worker: &Worker,
    now: u64,
    one: WorkerReport,
    all: Vec<WorkerReport>,
    i: int,
)
    requires
        call_ensures(worker_report, (worker, now), one),
        call_ensures(worker_reports, (pool, now), all),
    ensures
        told_of(&one, worker@, now as nat),
        all@.len() == pool@.len(),
        0 <= i < pool@.len() ==> told_of(&all@[i], pool@[i], now as nat),
{
    if 0 <= i < pool@.len() {
        assert(all@[i].tells(pool@[i], now as nat));
    }
}

} // verus!
