//! From a configuration to a pool of replicas, at startup and on a reload.

use crate::config::{same_but_workers, same_cache, AppConfig, Section, WorkerEntry};
use crate::pool::{placed, views};
use crate::routing::{registered, urls_once, CacheRouter};
use crate::worker::{Worker, WorkerView};
use vstd::prelude::*;

verus! {

/// The replica of an entry, before anything happened to it.
pub open spec fn fresh_worker(config: AppConfig, entry: WorkerEntry, w: WorkerView) -> bool {
    &&& w.url == entry.url@
    &&& w.max_load == entry.max_load
    &&& w.load_penalty == entry.load_penalty
    &&& w.load == 0
    &&& w.healthy
    &&& w.failures == 0
    &&& w.successes == 0
    &&& w.health.endpoint@ == config.health.endpoint@
    &&& w.health.interval_secs == config.health.interval_secs
    &&& w.health.failure_threshold == config.health.failure_threshold
    &&& w.health.success_threshold == config.health.success_threshold
    &&& w.breaker == crate::circuit_breaker::BreakerView::fresh(w.breaker.config)
    &&& w.breaker.config.failure_threshold == config.circuit_breaker.failure_threshold
    &&& w.breaker.config.success_threshold == config.circuit_breaker.success_threshold
    &&& w.breaker.config.timeout_secs == config.circuit_breaker.timeout_secs
}

/// One replica for each entry, in their order.
pub open spec fn fresh_pool(config: AppConfig, pool: Seq<WorkerView>) -> bool {
    &&& pool.len() == config.workers@.len()
    &&& forall|i: int| 0 <= i < pool.len() ==> fresh_worker(config, config.workers@[i], #[trigger] pool[i])
}

/// The replicas of a configuration.
pub fn build_workers(config: &AppConfig) -> (r: Vec<Worker>)
    ensures
        fresh_pool(*config, views(r@)),
        forall|i: int| 0 <= i < r@.len() ==> (#[trigger] r@[i]).wf(),
{
    let health = config.health_config();
    let breaker = config.breaker_config();
    let mut workers: Vec<Worker> = Vec::new();
    let mut i: usize = 0;
    while i < config.workers.len()
        invariant
            i <= config.workers@.len(),
            workers@.len() == i,
            health.endpoint == config.health.endpoint,
            health.interval_secs == config.health.interval_secs,
            health.failure_threshold == config.health.failure_threshold,
            health.success_threshold == config.health.success_threshold,
            breaker.failure_threshold == config.circuit_breaker.failure_threshold,
            breaker.success_threshold == config.circuit_breaker.success_threshold,
            breaker.timeout_secs == config.circuit_breaker.timeout_secs,
            forall|j: int|
                0 <= j < i ==> (#[trigger] workers@[j]).wf() && fresh_worker(
                    *config,
                    config.workers@[j],
                    workers@[j]@,
                ),
        decreases config.workers.len() - i,
    {
        let entry: &WorkerEntry = &config.workers[i];
        workers.push(Worker::new(entry.url.clone(), entry.max_load, entry.load_penalty, health.clone(), breaker));
        i += 1;
    }
    workers
}

impl CacheRouter {
    /// Whether nothing has happened to the router since it was made for
    /// `config`: it routes by these settings, its replicas are idle, and it
    /// knows nothing of their caches.
    pub open spec fn is_cold(&self, config: AppConfig) -> bool {
        &&& self.config == config.cache.spec_config()
        &&& self.tree.now() == config.workers@.len() + 1
        &&& self.tree.tenant_views() == urls_once(self.pool@)
        &&& fresh_pool(config, self.pool@)
        &&& forall|prefix: Seq<char>| #[trigger] self.tree.ends(prefix) == (prefix.len() == 0)
        &&& forall|prefix: Seq<char>, t: Seq<char>|
            #[trigger] self.tree.stamp(prefix, t) == if prefix.len() == 0 {
                registered(self.pool@, t)
            } else {
                None
            }
    }
}

/// The router of a configuration.
pub fn build_router(config: &AppConfig) -> (r: CacheRouter)
    requires
        config.workers@.len() < usize::MAX,
    ensures
        r.wf(),
        r.is_cold(*config),
{
    let workers = build_workers(config);
    let ghost pool = views(workers@);
    let router = CacheRouter::new(workers, config.cache_config());
    proof {
        assert(fresh_pool(*config, placed(pool))) by {
            assert forall|i: int| 0 <= i < pool.len() implies fresh_worker(
                *config,
                config.workers@[i],
                #[trigger] placed(pool)[i],
            ) by {
                assert(fresh_worker(*config, config.workers@[i], pool[i]));
            }
        }
        assert forall|t: Seq<char>| #[trigger] registered(placed(pool), t) == registered(pool, t) by {
            lemma_registered_placed(pool, t);
        }
        lemma_urls_placed(pool);
    }
    router
}

proof fn lemma_registered_placed(pool: Seq<WorkerView>, url: Seq<char>)
    ensures
        registered(placed(pool), url) == registered(pool, url),
    decreases pool.len(),
{
    if pool.len() > 0 {
        lemma_registered_placed(pool.drop_last(), url);
        assert(placed(pool).drop_last() =~= placed(pool.drop_last()));
    }
}

proof fn lemma_urls_placed(pool: Seq<WorkerView>)
    ensures
        urls_once(placed(pool)) == urls_once(pool),
    decreases pool.len(),
{
    if pool.len() > 0 {
        lemma_urls_placed(pool.drop_last());
        assert(placed(pool).drop_last() =~= placed(pool.drop_last()));
    }
}

/// What becomes of the answer to a reload: the router to use from now on, or
/// the sections that must not differ and do.
pub fn reload(current: &AppConfig, new_config: &AppConfig) -> (r: Result<CacheRouter, Vec<Section>>)
    requires
        new_config.workers@.len() < usize::MAX,
    ensures
        r is Ok <==> current.changes(new_config).len() == 0,
        r matches Ok(router) ==> router.wf() && router.is_cold(*new_config),
        r matches Err(changed) ==> changed@ == current.changes(new_config),
{
    match current.validate_reload_compatibility(new_config) {
        Ok(()) => Ok(build_router(new_config)),
        Err(changed) => Err(changed),
    }
}

/// A reload keeps the settings: where it is accepted, the new router routes by
/// thresholds that are the same numbers.
pub proof fn lemma_reload_keeps_settings(current: AppConfig, new_config: AppConfig, router: &CacheRouter)
    requires
        current.changes(&new_config).len() == 0,
        router.is_cold(new_config),
    ensures
        same_cache(current.cache, new_config.cache),
        router.config == new_config.cache.spec_config(),
{
    crate::config::lemma_only_workers_change(current, new_config, new_config.workers);
    assert(!current.differs(&new_config, Section::Cache));
}

/// After a reload every replica is available at once, and no text is held.
pub proof fn lemma_cold_start(router: &CacheRouter, config: AppConfig, now: nat, i: int, text: Seq<char>)
    requires
        router.wf(),
        router.is_cold(config),
        config.fault() is None,
        0 <= i < config.workers@.len(),
    ensures
        router.pool@[i].available(now),
        router.tree.matched(text) == 0,
{
    crate::config::lemma_valid_entries(config, i);
    let tree = router.tree;
    tree.lemma_matched(text);
    assert(fresh_worker(config, config.workers@[i], router.pool@[i]));
    if tree.matched(text) > 0 {
        let p = text.take(tree.matched(text) as int);
        let t = choose|t: Seq<char>| (#[trigger] tree.stamp(p, t)) is Some;
        assert(tree.stamp(p, t) is None);
    }
}

/// Whether a replica is idle and healthy, with what an entry and the settings
/// say of it, field by field.
pub open spec fn untouched(config: AppConfig, entry: WorkerEntry, w: WorkerView) -> bool {
    &&& w.url == entry.url@
    &&& w.load == 0
    &&& w.max_load == entry.max_load
    &&& w.load_penalty == entry.load_penalty
    &&& w.healthy
    &&& w.failures == 0
    &&& w.successes == 0
    &&& w.health.endpoint@ == config.health.endpoint@
    &&& w.health.interval_secs == config.health.interval_secs
    &&& w.health.failure_threshold == config.health.failure_threshold
    &&& w.health.success_threshold == config.health.success_threshold
    &&& w.breaker.state is Closed
    &&& w.breaker.failures == 0
    &&& w.breaker.successes == 0
    &&& w.breaker.config.failure_threshold == config.circuit_breaker.failure_threshold
    &&& w.breaker.config.success_threshold == config.circuit_breaker.success_threshold
    &&& w.breaker.config.timeout_secs == config.circuit_breaker.timeout_secs
}

/// There is one replica for each entry, in the entries' order, and nothing has
/// happened to any of them.
pub proof fn lemma_built_workers(config: &AppConfig, r: Vec<Worker>, i: int)
    requires
        call_ensures(build_workers, (config,), r),
    ensures
        r@.len() == config.workers@.len(),
        0 <= i < config.workers@.len() ==> untouched(*config, config.workers@[i], r@[i]@),
{
    let pool = views(r@);
    assert(pool.len() == r@.len());
    if 0 <= i < config.workers@.len() {
        assert(fresh_worker(*config, config.workers@[i], pool[i]));
    }
}

proof fn lemma_cold(router: &CacheRouter, config: AppConfig, i: int, text: Seq<char>)
    requires
        router.wf(),
        router.is_cold(config),
    ensures
        router.config.cache_threshold == config.cache.threshold,
        router.config.match_abs_threshold == config.cache.match_abs_threshold,
        router.config.balance_abs_threshold == config.cache.balance_abs_threshold,
        router.config.balance_rel_threshold == config.cache.balance_rel_threshold,
        router.config.eviction_interval_secs == config.cache.eviction_interval_secs,
        router.config.max_tree_size == config.cache.max_tree_size,
        router.config.daily_cleanup_hour_utc == config.cache.daily_cleanup_hour_utc,
        router.pool@.len() == config.workers@.len(),
        0 <= i < config.workers@.len() ==> untouched(config, config.workers@[i], router.pool@[i]),
        router.tree.matched(text) == 0,
{
    let tree = router.tree;
    tree.lemma_matched(text);
    if 0 <= i < config.workers@.len() {
        assert(fresh_worker(config, config.workers@[i], router.pool@[i]));
    }
    if tree.matched(text) > 0 {
        let p = text.take(tree.matched(text) as int);
        let t = choose|t: Seq<char>| (#[trigger] tree.stamp(p, t)) is Some;
        assert(tree.stamp(p, t) is None);
    }
}

/// A router starts with the settings of its configuration, field by field, with
/// its replicas in their order, to none of which anything has happened, and with
/// no text.
pub proof fn lemma_built_router(config: &AppConfig, r: CacheRouter, i: int, text: Seq<char>)
    requires
        call_ensures(build_router, (config,), r),
    ensures
        r.config.cache_threshold == config.cache.threshold,
        r.config.match_abs_threshold == config.cache.match_abs_threshold,
        r.config.balance_abs_threshold == config.cache.balance_abs_threshold,
        r.config.balance_rel_threshold == config.cache.balance_rel_threshold,
        r.config.eviction_interval_secs == config.cache.eviction_interval_secs,
        r.config.max_tree_size == config.cache.max_tree_size,
        r.config.daily_cleanup_hour_utc == config.cache.daily_cleanup_hour_utc,
        r.pool@.len() == config.workers@.len(),
        0 <= i < config.workers@.len() ==> untouched(*config, config.workers@[i], r.pool@[i]),
        r.tree.matched(text) == 0,
{
    lemma_cold(&r, *config, i, text);
}

/// A reload is accepted exactly if every field of every section but the workers
/// is what it was. The router is then new: it has the replicas of the new
/// configuration, untouched and in their order, and no text.
pub proof fn lemma_reloaded(
    current: &AppConfig,
    new_config: &AppConfig,
    r: Result<CacheRouter, Vec<Section>>,
    i: int,
    text: Seq<char>,
)
    requires
        call_ensures(reload, (current, new_config), r),
    ensures
        r is Ok <==> same_but_workers(*current, *new_config),
        r matches Ok(router) ==> {
            &&& router.pool@.len() == new_config.workers@.len()
            &&& 0 <= i < new_config.workers@.len() ==> untouched(
                *new_config,
                new_config.workers@[i],
                router.pool@[i],
            )
            &&& router.tree.matched(text) == 0
        },
{
    crate::config::lemma_changes_are_all_fields(*current, *new_config);
    if r is Ok {
        lemma_cold(&r->Ok_0, *new_config, i, text);
    }
}

/// What a refused reload is answered is what the test for compatibility found.
pub proof fn lemma_reload_refused(
    current: &AppConfig,
    new_config: &AppConfig,
    r: Result<CacheRouter, Vec<Section>>,
    tested: Result<(), Vec<Section>>,
)
    requires
        call_ensures(reload, (current, new_config), r),
        call_ensures(AppConfig::validate_reload_compatibility, (current, new_config), tested),
    ensures
        r is Err <==> tested is Err,
        r matches Err(changed) ==> changed@ == tested->Err_0@,
{
}

} // verus!
