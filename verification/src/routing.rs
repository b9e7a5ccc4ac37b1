//! Which replica gets a request: the one that holds the longest matching
//! prefix, unless load wins over cache affinity.

use crate::config::CacheConfig;
use crate::float32::{
    at_least, in_unit_interval, infinity_reaches, lemma_nan_bits, lemma_whole_reaches, quotient_at_least,
    quotient_reaches, zero_reaches,
};
use crate::metrics;
use crate::pool::{
    candidate, compared, first_with_url, least_loaded, lemma_candidates, lemma_first_unique, nobody, placed, single,
    usable, views, Pool,
};
use crate::tree::{MatchView, PrefixMatch, Tree};
use crate::worker::{Worker, WorkerView};
use rand::seq::IndexedRandom;
use vstd::prelude::*;

verus! {

/// A pool of replicas with what is known of their caches.
pub struct CacheRouter {
    pub pool: Pool,
    pub tree: Tree,
    pub config: CacheConfig,
}

/// Why a replica was chosen.
#[derive(Clone, Copy, Debug, PartialEq, Eq, Structural)]
pub enum Reason {
    /// No other replica is available.
    SingleAvailable,
    /// There is no text to match.
    EmptyText,
    /// The replica that holds the prefix is too busy.
    HitOverloaded,
    /// The replica holds the prefix.
    CacheHit,
    /// No replica that is available holds enough of the text.
    CacheMiss,
}

impl Reason {
    /// The word for the reason, as it is logged.
    pub open spec fn spec_label(self) -> Seq<char> {
        match self {
            Reason::SingleAvailable => "single_available"@,
            Reason::EmptyText => "empty_text"@,
            Reason::HitOverloaded => "hit_overloaded"@,
            Reason::CacheHit => "cache_hit"@,
            Reason::CacheMiss => "cache_miss"@,
        }
    }

    /// The word for the reason, as it is logged.
    pub fn label(self) -> (r: &'static str)
        ensures
            r@ == self.spec_label(),
    {
        match self {
            Reason::SingleAvailable => "single_available",
            Reason::EmptyText => "empty_text",
            Reason::HitOverloaded => "hit_overloaded",
            Reason::CacheHit => "cache_hit",
            Reason::CacheMiss => "cache_miss",
        }
    }
}

/// A routing decision.
#[derive(Clone, Copy, Debug)]
pub struct Route {
    pub worker: usize,
    pub reason: Reason,
    /// How much of the text matched; zero if it was not matched.
    pub matched_char_count: usize,
}

// ---------------------------------------------------------------------------
// The rules
// ---------------------------------------------------------------------------

/// Whether a match of `matched` out of `input` characters is good enough to
/// follow: as a fraction, or as a length.
pub open spec fn good_match(config: CacheConfig, matched: nat, input: nat) -> bool {
    ||| if input > 0 {
        quotient_at_least(matched as int, input as int, config.cache_threshold)
    } else {
        at_least(0, config.cache_threshold)
    }
    ||| config.match_abs_threshold > 0 && matched >= config.match_abs_threshold
}

/// Whether `load` exceeds `least` both absolutely and relatively.
pub open spec fn overloaded(config: CacheConfig, load: nat, least: nat) -> bool {
    let excess: nat = if load > least {
        (load - least) as nat
    } else {
        0
    };
    &&& excess >= config.balance_abs_threshold
    &&& if least > 0 {
        quotient_at_least(load as int, least as int, config.balance_rel_threshold)
    } else {
        !config.balance_rel_threshold.is_nan()
    }
}

/// Whether the `i`-th replica holds enough of a text to be considered.
pub open spec fn holds_text(
    pool: Seq<WorkerView>,
    config: CacheConfig,
    exclude: Option<usize>,
    now: nat,
    found: MatchView,
    i: int,
) -> bool {
    &&& good_match(config, found.matched, found.input)
    &&& found.owner is Some
    &&& first_with_url(pool, found.owner->0, i)
    &&& usable(pool, exclude, now, i)
}

/// The decision for a text of which `found` is known, if load alone would
/// choose the replica `pick`.
pub open spec fn decision(
    pool: Seq<WorkerView>,
    config: CacheConfig,
    exclude: Option<usize>,
    now: nat,
    found: MatchView,
    pick: usize,
) -> Route {
    let matched = found.matched as usize;
    if single(pool, exclude, now, pick as int) {
        Route { worker: pick, reason: Reason::SingleAvailable, matched_char_count: 0 }
    } else if found.input == 0 {
        Route { worker: pick, reason: Reason::EmptyText, matched_char_count: 0 }
    } else if exists|i: int| holds_text(pool, config, exclude, now, found, i) {
        let i = choose|i: int| holds_text(pool, config, exclude, now, found, i);
        if overloaded(config, pool[i].effective_load(), pool[pick as int].effective_load()) {
            Route { worker: pick, reason: Reason::HitOverloaded, matched_char_count: matched }
        } else {
            Route { worker: i as usize, reason: Reason::CacheHit, matched_char_count: matched }
        }
    } else {
        Route { worker: pick, reason: Reason::CacheMiss, matched_char_count: matched }
    }
}

/// Whether `r` is a decision by the rules: none exactly if no replica may get
/// the request; otherwise the one for some replica with the least load.
pub open spec fn decided(
    pool: Seq<WorkerView>,
    config: CacheConfig,
    exclude: Option<usize>,
    now: nat,
    found: MatchView,
    r: Option<Route>,
) -> bool {
    match r {
        Some(route) => usable(pool, exclude, now, route.worker as int) && exists|pick: usize|
            #[trigger] least_loaded(pool, exclude, now, pick as int) && route == decision(
                pool,
                config,
                exclude,
                now,
                found,
                pick,
            ),
        None => forall|i: int| !usable(pool, exclude, now, i),
    }
}

fn is_good_match(config: &CacheConfig, matched: usize, input: usize) -> (r: bool)
    ensures
        r == good_match(*config, matched as nat, input as nat),
{
    let above_ratio = if input > 0 {
        quotient_reaches(matched as u64, input as u64, config.cache_threshold)
    } else {
        zero_reaches(config.cache_threshold)
    };
    let above_absolute = config.match_abs_threshold > 0 && matched >= config.match_abs_threshold;
    above_ratio || above_absolute
}

fn is_overloaded(config: &CacheConfig, load: usize, least: usize) -> (r: bool)
    ensures
        r == overloaded(*config, load as nat, least as nat),
{
    let relative = if least > 0 {
        quotient_reaches(load as u64, least as u64, config.balance_rel_threshold)
    } else {
        infinity_reaches(config.balance_rel_threshold)
    };
    load.saturating_sub(least) >= config.balance_abs_threshold && relative
}

/// One of `candidates`, at random.
///
/// Calls `IndexedRandom::choose` of the crate `rand` with the generator of the
/// thread. Claimed of it: it returns nothing exactly if there are no
/// candidates, and otherwise one of them. Which one is left to chance. It is
/// not claimed that a generator can be had: seeding it asks the system.
#[verifier::external_body]
fn choose_at_random(candidates: &Vec<usize>) -> (r: Option<usize>)
    ensures
        r is None <==> candidates@.len() == 0,
        r matches Some(i) ==> candidates@.contains(i),
{
    candidates.choose(&mut rand::rng()).copied()
}

/// The decision for a text of which `found` is known, if load alone would
/// choose the replica `pick`.
pub fn decide(
    pool: &Pool,
    config: &CacheConfig,
    exclude: Option<usize>,
    now_ns: u64,
    found: &PrefixMatch,
    pick: usize,
) -> (r: Route)
    requires
        pool.wf(),
        least_loaded(pool@, exclude, now_ns as nat, pick as int),
    ensures
        r == decision(pool@, *config, exclude, now_ns as nat, found@, pick),
{
    let ghost now = now_ns as nat;
    if pool.is_single(pick, exclude, now_ns) {
        return Route { worker: pick, reason: Reason::SingleAvailable, matched_char_count: 0 };
    }
    if found.input_char_count == 0 {
        return Route { worker: pick, reason: Reason::EmptyText, matched_char_count: 0 };
    }
    let matched = found.matched_char_count;
    if is_good_match(config, matched, found.input_char_count) {
        if let Some(tenant) = &found.tenant {
            if let Some(i) = pool.find_worker(tenant) {
                if pool.is_usable(i, exclude, now_ns) {
                    proof {
                        assert(holds_text(pool@, *config, exclude, now, found@, i as int));
                        lemma_one_holder(pool@, *config, exclude, now, found@, i as int);
                    }
                    let workers: &Vec<Worker> = pool.workers();
                    assert(views(workers@)[i as int] == workers@[i as int]@);
                    assert(views(workers@)[pick as int] == workers@[pick as int]@);
                    let load = workers[i].effective_load();
                    let least = workers[pick].effective_load();
                    if is_overloaded(config, load, least) {
                        metrics::record_load_balancing_event();
                        return Route { worker: pick, reason: Reason::HitOverloaded, matched_char_count: matched };
                    }
                    metrics::record_cache_hit(tenant.as_str());
                    return Route { worker: i, reason: Reason::CacheHit, matched_char_count: matched };
                }
                proof {
                    assert forall|k: int| !holds_text(pool@, *config, exclude, now, found@, k) by {
                        if holds_text(pool@, *config, exclude, now, found@, k) {
                            lemma_first_unique(pool@, tenant@, i as int, k);
                        }
                    }
                }
            }
        }
    }
    metrics::record_cache_miss();
    Route { worker: pick, reason: Reason::CacheMiss, matched_char_count: matched }
}

/// Decides for a text of which `found` is known; ties between equally loaded
/// replicas are broken by chance.
pub fn select(
    pool: &Pool,
    config: &CacheConfig,
    exclude: Option<usize>,
    now_ns: u64,
    found: &PrefixMatch,
) -> (r: Option<Route>)
    requires
        pool.wf(),
    ensures
        decided(pool@, *config, exclude, now_ns as nat, found@, r),
{
    let tied = pool.least_loaded_workers(exclude, now_ns);
    match choose_at_random(&tied) {
        Some(pick) => {
            assert(least_loaded(pool@, exclude, now_ns as nat, pick as int));
            let route = decide(pool, config, exclude, now_ns, found, pick);
            proof {
                pool.lemma_places();
                lemma_decision_usable(pool@, *config, exclude, now_ns as nat, found@, pick);
            }
            Some(route)
        },
        None => None,
    }
}

impl CacheRouter {
    pub open spec fn wf(&self) -> bool {
        self.pool.wf() && self.tree.wf()
    }

    /// The decision for `text`, if load alone would choose the replica `pick`.
    pub open spec fn decision(&self, text: Seq<char>, exclude: Option<usize>, now: nat, pick: usize) -> Route {
        decision(self.pool@, self.config, exclude, now, self.tree.spec_match(text), pick)
    }
}

impl CacheRouter {
    /// Whether `worker` may be selected for `text`: the decision for some replica
    /// with the least load selects it.
    pub open spec fn selects(&self, text: Seq<char>, exclude: Option<usize>, now: nat, worker: usize) -> bool {
        usable(self.pool@, exclude, now, worker as int) && exists|pick: usize|
            #[trigger] least_loaded(self.pool@, exclude, now, pick as int) && worker == self.decision(
                text,
                exclude,
                now,
                pick,
            ).worker
    }
}

/// The addresses of the replicas, each of them once, where it occurs first.
pub open spec fn urls_once(pool: Seq<WorkerView>) -> Seq<Seq<char>>
    decreases pool.len(),
{
    if pool.len() == 0 {
        Seq::empty()
    } else {
        let sofar = urls_once(pool.drop_last());
        if sofar.contains(pool.last().url) {
            sofar
        } else {
            sofar.push(pool.last().url)
        }
    }
}

/// When `url` was registered: the replicas are registered in their order, so
/// the last one with this address counts.
pub open spec fn registered(pool: Seq<WorkerView>, url: Seq<char>) -> Option<u64>
    decreases pool.len(),
{
    if pool.len() == 0 {
        None
    } else if pool.last().url == url {
        Some(pool.len() as u64)
    } else {
        registered(pool.drop_last(), url)
    }
}

impl CacheRouter {
    /// A router for `workers`, each of which is registered with the empty
    /// prefix.
    pub fn new(workers: Vec<Worker>, config: CacheConfig) -> (r: Self)
        requires
            forall|i: int| 0 <= i < workers@.len() ==> (#[trigger] workers@[i]).wf(),
            workers@.len() < usize::MAX,
        ensures
            r.wf(),
            r.pool@ == placed(views(workers@)),
            r.config == config,
            r.tree.now() == workers@.len() + 1,
            r.tree.tenant_views() == urls_once(views(workers@)),
            forall|prefix: Seq<char>| #[trigger] r.tree.ends(prefix) == (prefix.len() == 0),
            forall|prefix: Seq<char>, t: Seq<char>|
                #[trigger] r.tree.stamp(prefix, t) == if prefix.len() == 0 {
                    registered(views(workers@), t)
                } else {
                    None
                },
    {
        let mut tree = Tree::new();
        let mut i: usize = 0;
        let ghost pool = views(workers@);
        assert(pool.take(0).len() == 0);
        assert(tree.tenant_views() =~= urls_once(pool.take(0)));
        while i < workers.len()
            invariant
                pool == views(workers@),
                workers@.len() < usize::MAX,
                i <= workers@.len(),
                tree.wf(),
                tree.now() == i + 1,
                tree.tenant_views() == urls_once(pool.take(i as int)),
                forall|prefix: Seq<char>| #[trigger] tree.ends(prefix) == (prefix.len() == 0),
                forall|prefix: Seq<char>, t: Seq<char>|
                    #[trigger] tree.stamp(prefix, t) == if prefix.len() == 0 {
                        registered(pool.take(i as int), t)
                    } else {
                        None
                    },
            decreases workers.len() - i,
        {
            let ghost before = tree;
            tree.insert("", workers[i].url());
            proof {
                reveal_strlit("");
                assert(pool.take(i + 1).drop_last() =~= pool.take(i as int));
                assert(pool.take(i + 1).last() == workers@[i as int]@);
                let url = workers@[i as int]@.url;
                before.lemma_names(url);
                assert(before.known(url) <==> before.tenant_views().contains(url)) by {
                    if before.known(url) {
                        let k = choose|k: int|
                            0 <= k < before.spec_names().len() && (#[trigger] before.spec_names()[k])@ == url;
                        assert(before.tenant_views()[k] == url);
                    }
                    if before.tenant_views().contains(url) {
                        let k = choose|k: int| 0 <= k < before.tenant_views().len() && before.tenant_views()[k] == url;
                        assert(before.spec_names()[k]@ == url);
                    }
                }
                assert forall|prefix: Seq<char>| #[trigger] tree.ends(prefix) == (prefix.len() == 0) by {
                    assert(before.ends(prefix) == (prefix.len() == 0));
                    before.lemma_matched(""@);
                }
                assert forall|prefix: Seq<char>, t: Seq<char>|
                    #[trigger] tree.stamp(prefix, t) == if prefix.len() == 0 {
                        registered(pool.take(i + 1), t)
                    } else {
                        None
                    } by {
                    if prefix.len() == 0 {
                        assert(""@.take(0) =~= prefix);
                    }
                }
            }
            i += 1;
        }
        assert(pool.take(workers@.len() as int) =~= pool);
        CacheRouter { pool: Pool::new(workers), tree, config }
    }

    pub fn workers(&self) -> (r: &Vec<Worker>)
        ensures
            views(r@) == self.pool@,
    {
        self.pool.workers()
    }

    /// The decision for `request_text`, if load alone would choose the replica
    /// `pick`.
    pub fn route(&self, request_text: &str, exclude: Option<usize>, now_ns: u64, pick: usize) -> (r: Route)
        requires
            self.wf(),
            least_loaded(self.pool@, exclude, now_ns as nat, pick as int),
        ensures
            r == self.decision(request_text@, exclude, now_ns as nat, pick),
    {
        let found = self.tree.prefix_match_with_counts(request_text);
        decide(&self.pool, &self.config, exclude, now_ns, &found, pick)
    }

    /// Decides for `request_text`; ties between equally loaded replicas are
    /// broken by chance.
    pub fn select_route(&self, request_text: &str, exclude: Option<usize>, now_ns: u64) -> (r: Option<Route>)
        requires
            self.wf(),
        ensures
            decided(self.pool@, self.config, exclude, now_ns as nat, self.tree.spec_match(request_text@), r),
    {
        let found = self.tree.prefix_match_with_counts(request_text);
        select(&self.pool, &self.config, exclude, now_ns, &found)
    }

    /// Selects a replica for `request_text`, or none if none may get it.
    pub fn select_worker(&self, request_text: &str, exclude: Option<usize>, now_ns: u64) -> (r: Option<usize>)
        requires
            self.wf(),
        ensures
            r is None <==> forall|i: int| !usable(self.pool@, exclude, now_ns as nat, i),
            r is None <==> nobody(self.pool@, exclude, now_ns as nat),
            r matches Some(worker) ==> usable(self.pool@, exclude, now_ns as nat, worker as int) && exists|pick: usize|
                #[trigger] least_loaded(self.pool@, exclude, now_ns as nat, pick as int) && worker == self.decision(
                    request_text@,
                    exclude,
                    now_ns as nat,
                    pick,
                ).worker,
            r matches Some(worker) ==> self.selects(request_text@, exclude, now_ns as nat, worker),
    {
        match self.select_route(request_text, exclude, now_ns) {
            Some(route) => Some(route.worker),
            None => None,
        }
    }

    /// Records that `request_text` was sent to a replica. An empty text leaves
    /// no trace.
    pub fn record_routed(&mut self, worker_idx: usize, request_text: &str)
        requires
            old(self).wf(),
            worker_idx < old(self).pool@.len(),
            old(self).tree.now() < u64::MAX,
        ensures
            final(self).wf(),
            final(self).pool == old(self).pool,
            final(self).config == old(self).config,
            recorded_text(
                &old(self).tree,
                &final(self).tree,
                request_text@,
                old(self).pool@[worker_idx as int].url,
            ),
    {
        let url = self.pool.workers()[worker_idx].url();
        record_text(&mut self.tree, request_text, url);
    }

    /// Evicts what was recorded longest ago, down to `max` characters for each
    /// replica and `max` nodes in all.
    pub fn evict(&mut self, max: usize)
        requires
            old(self).wf(),
        ensures
            final(self).wf(),
            final(self).pool == old(self).pool,
            final(self).config == old(self).config,
            final(self).tree.keeps(
                &old(self).tree,
                |prefix: Seq<char>, t: Seq<char>| old(self).tree.evicted(max, prefix, t),
            ),
            forall|t: Seq<char>| #[trigger] final(self).tree.char_count(t) <= max,
            final(self).tree.spec_root().nodes() <= max || final(self).tree.spec_root().nodes() == 1,
    {
        self.tree.evict_tenant_by_size(max);
    }
}

/// What recording that `text` was sent to the replica at `url` makes of a tree:
/// an empty text leaves no trace.
pub open spec fn recorded_text(before: &Tree, after: &Tree, text: Seq<char>, url: Seq<char>) -> bool {
    if text.len() == 0 {
        *after == *before
    } else {
        after.records(before, text, url)
    }
}

/// Records that `text` was sent to the replica at `url`.
pub fn record_text(tree: &mut Tree, text: &str, url: &str)
    requires
        old(tree).wf(),
        old(tree).now() < u64::MAX,
    ensures
        final(tree).wf(),
        recorded_text(old(tree), final(tree), text@, url@),
{
    if text.is_empty() {
        return;
    }
    tree.insert(text, url);
    metrics::record_request_routed(url);
}

proof fn lemma_one_holder(
    pool: Seq<WorkerView>,
    config: CacheConfig,
    exclude: Option<usize>,
    now: nat,
    found: MatchView,
    i: int,
)
    requires
        holds_text(pool, config, exclude, now, found, i),
    ensures
        (choose|k: int| holds_text(pool, config, exclude, now, found, k)) == i,
{
    let k = choose|k: int| holds_text(pool, config, exclude, now, found, k);
    lemma_first_unique(pool, found.owner->0, i, k);
}

proof fn lemma_decision_usable(
    pool: Seq<WorkerView>,
    config: CacheConfig,
    exclude: Option<usize>,
    now: nat,
    found: MatchView,
    pick: usize,
)
    requires
        usable(pool, exclude, now, pick as int),
        pool.len() <= usize::MAX,
    ensures
        usable(pool, exclude, now, decision(pool, config, exclude, now, found, pick).worker as int),
{
}

// ---------------------------------------------------------------------------
// Laws
// ---------------------------------------------------------------------------

/// A request goes to a replica that is healthy, whose breaker lets it through,
/// whose load is below its cap, and that is not the one to be avoided.
pub proof fn lemma_selected_is_admitted(
    router: &CacheRouter,
    text: Seq<char>,
    exclude: Option<usize>,
    now: nat,
    pick: usize,
)
    requires
        router.wf(),
        least_loaded(router.pool@, exclude, now, pick as int),
    ensures
        ({
            let i = router.decision(text, exclude, now, pick).worker;
            let w = router.pool@[i as int];
            &&& i < router.pool@.len()
            &&& w.healthy
            &&& w.breaker.can_execute(now)
            &&& w.load < w.max_load
            &&& exclude != Some(i)
        }),
{
    router.pool.lemma_places();
    lemma_decision_usable(router.pool@, router.config, exclude, now, router.tree.spec_match(text), pick);
}

/// Without a cache hit, nobody that may get the request has less load than the
/// replica that gets it.
pub proof fn lemma_falls_back_to_least_loaded(
    router: &CacheRouter,
    text: Seq<char>,
    exclude: Option<usize>,
    now: nat,
    pick: usize,
    j: int,
)
    requires
        least_loaded(router.pool@, exclude, now, pick as int),
        router.decision(text, exclude, now, pick).reason != Reason::CacheHit,
        usable(router.pool@, exclude, now, j),
    ensures
        router.pool@[router.decision(text, exclude, now, pick).worker as int].effective_load()
            <= router.pool@[j].effective_load(),
{
}

/// A cache hit goes to the replica that was last sent the longest prefix that
/// the tree holds, on a match that is good enough; and that replica does not
/// exceed the least load both absolutely and relatively.
pub proof fn lemma_hit_is_affine(
    router: &CacheRouter,
    text: Seq<char>,
    exclude: Option<usize>,
    now: nat,
    pick: usize,
)
    requires
        router.wf(),
        least_loaded(router.pool@, exclude, now, pick as int),
        router.decision(text, exclude, now, pick).reason == Reason::CacheHit,
    ensures
        ({
            let tree = router.tree;
            let matched = tree.matched(text);
            let w = router.pool@[router.decision(text, exclude, now, pick).worker as int];
            &&& tree.last_sent_to(text.take(matched as int), w.url)
            &&& good_match(router.config, matched, text.len())
            &&& !overloaded(
                router.config,
                w.effective_load(),
                router.pool@[pick as int].effective_load(),
            )
        }),
{
    router.pool.lemma_places();
    let tree = router.tree;
    let prefix = text.take(tree.matched(text) as int);
    assert(tree.holds(prefix));
    tree.lemma_owner(prefix);
}

/// Cache affinity is dropped only if the load exceeds the least load both
/// absolutely and relatively.
pub proof fn lemma_overload_needs_both(config: CacheConfig, load: nat, least: nat)
    requires
        least <= load,
    ensures
        load < least + config.balance_abs_threshold ==> !overloaded(config, load, least),
        least > 0 && !quotient_at_least(load as int, least as int, config.balance_rel_threshold) ==> !overloaded(
            config,
            load,
            least,
        ),
{
}

/// A similar request follows the recording: if the next text matches as far as
/// it agrees with the one that was just sent to a replica, and this is good
/// enough, it goes there too, unless the replica may not get it or is too busy.
/// The address of the replica is to be its own.
pub proof fn lemma_similar_request_follows(
    before: &CacheRouter,
    after: &CacheRouter,
    text: Seq<char>,
    next: Seq<char>,
    worker: usize,
    exclude: Option<usize>,
    now: nat,
    pick: usize,
)
    requires
        before.wf(),
        after.wf(),
        next.len() > 0,
        after.tree.records(&before.tree, text, after.pool@[worker as int].url),
        after.tree.matched(next) <= text.len(),
        next.take(after.tree.matched(next) as int) == text.take(after.tree.matched(next) as int),
        good_match(after.config, after.tree.matched(next), next.len()),
        first_with_url(after.pool@, after.pool@[worker as int].url, worker as int),
        usable(after.pool@, exclude, now, worker as int),
        least_loaded(after.pool@, exclude, now, pick as int),
        !overloaded(
            after.config,
            after.pool@[worker as int].effective_load(),
            after.pool@[pick as int].effective_load(),
        ),
    ensures
        after.decision(next, exclude, now, pick).worker == worker,
{
    let tree = after.tree;
    let config = after.config;
    let pool = after.pool@;
    let k = tree.matched(next) as int;
    tree.lemma_matched(next);
    tree.lemma_follows(&before.tree, text, pool[worker as int].url, next, k);
    assert(holds_text(pool, config, exclude, now, tree.spec_match(next), worker as int));
    lemma_one_holder(pool, config, exclude, now, tree.spec_match(next), worker as int);
}

/// The same request follows the recording: a text that was just sent to a
/// replica goes there again, unless the replica may not get it or is too busy.
/// The address of the replica is to be its own.
pub proof fn lemma_same_request_follows(
    before: &CacheRouter,
    after: &CacheRouter,
    text: Seq<char>,
    worker: usize,
    exclude: Option<usize>,
    now: nat,
    pick: usize,
)
    requires
        before.wf(),
        after.wf(),
        text.len() > 0,
        in_unit_interval(after.config.cache_threshold),
        after.tree.records(&before.tree, text, after.pool@[worker as int].url),
        first_with_url(after.pool@, after.pool@[worker as int].url, worker as int),
        usable(after.pool@, exclude, now, worker as int),
        least_loaded(after.pool@, exclude, now, pick as int),
        !overloaded(
            after.config,
            after.pool@[worker as int].effective_load(),
            after.pool@[pick as int].effective_load(),
        ),
    ensures
        after.decision(text, exclude, now, pick).worker == worker,
{
    let tree = after.tree;
    let config = after.config;
    tree.lemma_recorded_matches(&before.tree, text, after.pool@[worker as int].url);
    lemma_whole_reaches(text.len() as int, config.cache_threshold);
    assert(good_match(config, tree.matched(text), text.len()));
    lemma_similar_request_follows(before, after, text, text, worker, exclude, now, pick);
}

// ---------------------------------------------------------------------------
// What a decision is, field by field
// ---------------------------------------------------------------------------

/// Whether enough of a text matches: the fraction reaches the one threshold, or
/// the length the other, where there is one. Either is enough.
pub open spec fn enough(config: CacheConfig, matched: nat, input: nat) -> bool {
    ||| input > 0 && quotient_at_least(matched as int, input as int, config.cache_threshold)
    ||| 0 < config.match_abs_threshold <= matched
}

/// Whether a load is too much next to the least one: by the absolute threshold
/// and by the relative one.
pub open spec fn too_much(config: CacheConfig, load: nat, least: nat) -> bool {
    &&& load >= least + config.balance_abs_threshold
    &&& if least == 0 {
        config.balance_rel_threshold.bits % 0x8000_0000 <= 0x7f80_0000
    } else {
        quotient_at_least(load as int, least as int, config.balance_rel_threshold)
    }
}

/// Whether the `i`-th replica is the first of the candidates' pool with this
/// address, and a candidate itself.
pub open spec fn holder(
    pool: Seq<WorkerView>,
    exclude: Option<usize>,
    now: nat,
    owner: Option<Seq<char>>,
    i: int,
) -> bool {
    &&& candidate(pool, exclude, now, i)
    &&& owner == Some(pool[i].url)
    &&& forall|j: int| 0 <= j < i ==> (#[trigger] pool[j]).url != pool[i].url
}

/// Whether a candidate has the least load of all.
pub open spec fn lightest(pool: Seq<WorkerView>, exclude: Option<usize>, now: nat, i: int) -> bool {
    &&& candidate(pool, exclude, now, i)
    &&& forall|j: int| #[trigger] candidate(pool, exclude, now, j) ==> compared(pool[i]) <= compared(pool[j])
}

/// Whether there is another candidate than the `i`-th replica.
pub open spec fn another(pool: Seq<WorkerView>, exclude: Option<usize>, now: nat, i: int) -> bool {
    exists|j: int| #[trigger] candidate(pool, exclude, now, j) && j != i
}

/// The route for a text, case by case.
pub open spec fn follows_rules(
    pool: Seq<WorkerView>,
    config: CacheConfig,
    exclude: Option<usize>,
    now: nat,
    found: MatchView,
    pick: int,
    i: int,
    r: Route,
) -> bool {
    let matched = found.matched;
    let held = enough(config, matched, found.input) && holder(pool, exclude, now, found.owner, i);
    let none = !enough(config, matched, found.input) || forall|k: int| !holder(pool, exclude, now, found.owner, k);
    let busy = too_much(config, compared(pool[i]), compared(pool[pick]));
    &&& !another(pool, exclude, now, pick) ==> r.worker == pick && r.reason is SingleAvailable && r.matched_char_count == 0
    &&& another(pool, exclude, now, pick) && found.input == 0 ==> r.worker == pick && r.reason is EmptyText
        && r.matched_char_count == 0
    &&& another(pool, exclude, now, pick) && found.input > 0 && held && busy ==> r.worker == pick && r.reason
        is HitOverloaded && r.matched_char_count == matched
    &&& another(pool, exclude, now, pick) && found.input > 0 && held && !busy ==> r.worker == i && r.reason is CacheHit
        && r.matched_char_count == matched
    &&& another(pool, exclude, now, pick) && found.input > 0 && none ==> r.worker == pick && r.reason is CacheMiss
        && r.matched_char_count == matched
}

proof fn lemma_lightest(pool: Seq<WorkerView>, exclude: Option<usize>, now: nat, i: int)
    requires
        pool.len() <= usize::MAX,
    ensures
        lightest(pool, exclude, now, i) <==> least_loaded(pool, exclude, now, i),
        !another(pool, exclude, now, i) && candidate(pool, exclude, now, i) <==> single(pool, exclude, now, i),
{
    lemma_candidates(pool, exclude, now);
    assert(candidate(pool, exclude, now, i) == usable(pool, exclude, now, i));
    if lightest(pool, exclude, now, i) {
        assert forall|j: int| usable(pool, exclude, now, j) implies pool[i].effective_load() <= (
        #[trigger] pool[j]).effective_load() by {
            assert(candidate(pool, exclude, now, j));
        }
    }
    if least_loaded(pool, exclude, now, i) {
        assert forall|j: int| #[trigger] candidate(pool, exclude, now, j) implies compared(pool[i]) <= compared(
            pool[j],
        ) by {
            assert(usable(pool, exclude, now, j));
            assert(pool[i].effective_load() <= pool[j].effective_load());
        }
    }
    if single(pool, exclude, now, i) {
        assert forall|j: int| #[trigger] candidate(pool, exclude, now, j) implies j == i by {
            assert(usable(pool, exclude, now, j));
        }
    }
    if !another(pool, exclude, now, i) && candidate(pool, exclude, now, i) {
        assert forall|j: int| usable(pool, exclude, now, j) implies j == i by {
            assert(candidate(pool, exclude, now, j));
        }
    }
}

proof fn lemma_rules(
    pool: Seq<WorkerView>,
    config: CacheConfig,
    exclude: Option<usize>,
    now: nat,
    found: MatchView,
    pick: usize,
    i: int,
)
    requires
        pool.len() <= usize::MAX,
        found.matched <= usize::MAX,
        lightest(pool, exclude, now, pick as int),
    ensures
        follows_rules(
            pool,
            config,
            exclude,
            now,
            found,
            pick as int,
            i,
            decision(pool, config, exclude, now, found, pick),
        ),
{
    lemma_candidates(pool, exclude, now);
    lemma_lightest(pool, exclude, now, pick as int);
    if found.input > 0 {
        assert(good_match(config, found.matched, found.input) == enough(config, found.matched, found.input));
        assert forall|k: int| holds_text(pool, config, exclude, now, found, k) <==> enough(
            config,
            found.matched,
            found.input,
        ) && #[trigger] holder(pool, exclude, now, found.owner, k) by {
            assert(candidate(pool, exclude, now, k) == usable(pool, exclude, now, k));
        }
        if exists|k: int| holds_text(pool, config, exclude, now, found, k) {
            let k = choose|k: int| holds_text(pool, config, exclude, now, found, k);
            assert(holder(pool, exclude, now, found.owner, k));
            if holder(pool, exclude, now, found.owner, i) {
                assert(holds_text(pool, config, exclude, now, found, i));
                lemma_one_holder(pool, config, exclude, now, found, i);
                assert(compared(pool[pick as int]) <= compared(pool[i]));
                lemma_nan_bits(config.balance_rel_threshold);
            }
        } else {
            assert(!(enough(config, found.matched, found.input) && holder(pool, exclude, now, found.owner, i)));
        }
    }
}

/// The decision between a replica that holds the text and the one that load
/// alone would choose: the holder gets the request if enough of the text
/// matches, by the fraction or by the length, and its load is not too much by
/// both thresholds; in all other cases the least loaded one gets it.
pub proof fn lemma_decide(
    pool: &Pool,
    config: &CacheConfig,
    exclude: Option<usize>,
    now_ns: u64,
    found: &PrefixMatch,
    pick: usize,
    r: Route,
    i: int,
)
    requires
        pool.wf(),
        lightest(pool@, exclude, now_ns as nat, pick as int),
        call_ensures(decide, (pool, config, exclude, now_ns, found, pick), r),
    ensures
        follows_rules(pool@, *config, exclude, now_ns as nat, found@, pick as int, i, r),
        found@.matched == found.matched_char_count,
        found@.input == found.input_char_count,
        found@.owner is Some <==> found.tenant is Some,
        found.tenant matches Some(t) ==> found@.owner == Some(t@),
{
    pool.lemma_places();
    lemma_rules(pool@, *config, exclude, now_ns as nat, found@, pick, i);
}

/// The decision for a text: what counts is the longest prefix that the tree
/// holds, and the replica that it was sent to last.
pub proof fn lemma_route(
    router: &CacheRouter,
    text: &str,
    exclude: Option<usize>,
    now_ns: u64,
    pick: usize,
    r: Route,
    i: int,
)
    requires
        router.wf(),
        text@.len() <= usize::MAX,
        lightest(router.pool@, exclude, now_ns as nat, pick as int),
        call_ensures(CacheRouter::route, (router, text, exclude, now_ns, pick), r),
    ensures
        follows_rules(
            router.pool@,
            router.config,
            exclude,
            now_ns as nat,
            router.tree.spec_match(text@),
            pick as int,
            i,
            r,
        ),
{
    router.pool.lemma_places();
    router.tree.lemma_matched(text@);
    lemma_rules(router.pool@, router.config, exclude, now_ns as nat, router.tree.spec_match(text@), pick, i);
}

/// Whether a route comes from the rules: nobody gets the request exactly if
/// there is no candidate; whoever gets it is a candidate; and for some candidate
/// with the least load the rules say so.
pub open spec fn routed_by_rules(
    pool: Seq<WorkerView>,
    config: CacheConfig,
    exclude: Option<usize>,
    now: nat,
    found: MatchView,
    i: int,
    r: Option<Route>,
) -> bool {
    match r {
        None => forall|k: int| !candidate(pool, exclude, now, k),
        Some(route) => {
            &&& candidate(pool, exclude, now, route.worker as int)
            &&& !(route.reason is CacheHit) ==> lightest(pool, exclude, now, route.worker as int)
            &&& exists|pick: usize|
                #[trigger] lightest(pool, exclude, now, pick as int) && follows_rules(
                    pool,
                    config,
                    exclude,
                    now,
                    found,
                    pick as int,
                    i,
                    route,
                )
        },
    }
}

pub(crate) proof fn lemma_decided_by_rules(
    pool: Seq<WorkerView>,
    config: CacheConfig,
    exclude: Option<usize>,
    now: nat,
    found: MatchView,
    r: Option<Route>,
    i: int,
)
    requires
        pool.len() <= usize::MAX,
        found.matched <= usize::MAX,
        decided(pool, config, exclude, now, found, r),
    ensures
        routed_by_rules(pool, config, exclude, now, found, i, r),
{
    lemma_candidates(pool, exclude, now);
    match r {
        None => {
            assert forall|k: int| !candidate(pool, exclude, now, k) by {
                assert(!usable(pool, exclude, now, k));
            }
        },
        Some(route) => {
            assert(candidate(pool, exclude, now, route.worker as int));
            let pick = choose|pick: usize|
                #[trigger] least_loaded(pool, exclude, now, pick as int) && route == decision(
                    pool,
                    config,
                    exclude,
                    now,
                    found,
                    pick,
                );
            lemma_lightest(pool, exclude, now, pick as int);
            lemma_rules(pool, config, exclude, now, found, pick, i);
            assert(lightest(pool, exclude, now, pick as int));
        },
    }
}

/// Selecting by chance among the least loaded keeps to the rules.
pub proof fn lemma_select(
    pool: &Pool,
    config: &CacheConfig,
    exclude: Option<usize>,
    now_ns: u64,
    found: &PrefixMatch,
    r: Option<Route>,
    i: int,
)
    requires
        pool.wf(),
        call_ensures(select, (pool, config, exclude, now_ns, found), r),
    ensures
        routed_by_rules(pool@, *config, exclude, now_ns as nat, found@, i, r),
{
    pool.lemma_places();
    lemma_decided_by_rules(pool@, *config, exclude, now_ns as nat, found@, r, i);
}

/// Selecting for a text keeps to the rules.
pub proof fn lemma_select_route(
    router: &CacheRouter,
    text: &str,
    exclude: Option<usize>,
    now_ns: u64,
    r: Option<Route>,
    i: int,
)
    requires
        router.wf(),
        text@.len() <= usize::MAX,
        call_ensures(CacheRouter::select_route, (router, text, exclude, now_ns), r),
    ensures
        routed_by_rules(
            router.pool@,
            router.config,
            exclude,
            now_ns as nat,
            router.tree.spec_match(text@),
            i,
            r,
        ),
{
    router.pool.lemma_places();
    router.tree.lemma_matched(text@);
    lemma_decided_by_rules(
        router.pool@,
        router.config,
        exclude,
        now_ns as nat,
        router.tree.spec_match(text@),
        r,
        i,
    );
}

/// Selecting a replica keeps to the rules: there is one exactly if there is a
/// candidate, and it is the replica of a route.
pub proof fn lemma_select_worker(
    router: &CacheRouter,
    text: &str,
    exclude: Option<usize>,
    now_ns: u64,
    r: Option<usize>,
    i: int,
)
    requires
        router.wf(),
        text@.len() <= usize::MAX,
        call_ensures(CacheRouter::select_worker, (router, text, exclude, now_ns), r),
    ensures
        r is None ==> forall|k: int| !candidate(router.pool@, exclude, now_ns as nat, k),
        r matches Some(worker) ==> candidate(router.pool@, exclude, now_ns as nat, worker as int) && exists|route: Route|
            route.worker == worker && #[trigger] routed_by_rules(
                router.pool@,
                router.config,
                exclude,
                now_ns as nat,
                router.tree.spec_match(text@),
                i,
                Some(route),
            ),
{
    let now = now_ns as nat;
    let pool = router.pool@;
    let found = router.tree.spec_match(text@);
    router.pool.lemma_places();
    router.tree.lemma_matched(text@);
    lemma_candidates(pool, exclude, now);
    if r is None {
        assert forall|k: int| !candidate(pool, exclude, now, k) by {
            assert(!usable(pool, exclude, now, k));
        }
    } else {
        let worker = r->0;
        assert(router.selects(text@, exclude, now, worker));
        let pick = choose|pick: usize|
            #[trigger] least_loaded(pool, exclude, now, pick as int) && worker == router.decision(
                text@,
                exclude,
                now,
                pick,
            ).worker;
        let route = decision(pool, router.config, exclude, now, found, pick);
        assert(least_loaded(pool, exclude, now, pick as int));
        assert(decided(pool, router.config, exclude, now, found, Some(route)));
        lemma_decided_by_rules(pool, router.config, exclude, now, found, Some(route), i);
        assert(candidate(pool, exclude, now, worker as int));
    }
}

/// Affinity: whoever holds a prefix whose fraction of the text reaches the
/// threshold gets the request, whatever the other threshold is, unless its load
/// is too much; and so does whoever holds a prefix that is long enough, whatever
/// the fraction is.
pub proof fn lemma_affinity(
    pool: &Pool,
    config: &CacheConfig,
    exclude: Option<usize>,
    now_ns: u64,
    found: &PrefixMatch,
    r: Option<Route>,
    i: int,
    least: int,
)
    requires
        pool.wf(),
        call_ensures(select, (pool, config, exclude, now_ns, found), r),
        holder(pool@, exclude, now_ns as nat, found@.owner, i),
        lightest(pool@, exclude, now_ns as nat, least),
        found.input_char_count > 0,
        quotient_at_least(
            found.matched_char_count as int,
            found.input_char_count as int,
            config.cache_threshold,
        ) || 0 < config.match_abs_threshold <= found.matched_char_count,
        !too_much(*config, compared(pool@[i]), compared(pool@[least])),
    ensures
        r is Some,
        r->0.worker == i,
{
    let now = now_ns as nat;
    lemma_select(pool, config, exclude, now_ns, found, r, i);
    assert(candidate(pool@, exclude, now, i));
    let route = r->0;
    let pick = choose|pick: usize|
        #[trigger] lightest(pool@, exclude, now, pick as int) && follows_rules(
            pool@,
            *config,
            exclude,
            now,
            found@,
            pick as int,
            i,
            route,
        );
    assert(compared(pool@[pick as int]) == compared(pool@[least]));
    if !another(pool@, exclude, now, pick as int) {
        assert(i == pick);
    }
}

/// Without enough of a match, and for an empty text, load alone decides.
pub proof fn lemma_no_affinity(
    pool: &Pool,
    config: &CacheConfig,
    exclude: Option<usize>,
    now_ns: u64,
    found: &PrefixMatch,
    r: Option<Route>,
    k: int,
)
    requires
        pool.wf(),
        call_ensures(select, (pool, config, exclude, now_ns, found), r),
        candidate(pool@, exclude, now_ns as nat, k),
        found.input_char_count == 0 || !quotient_at_least(
            found.matched_char_count as int,
            found.input_char_count as int,
            config.cache_threshold,
        ) && (config.match_abs_threshold == 0 || found.matched_char_count < config.match_abs_threshold),
    ensures
        r is Some,
        !(r->0.reason is CacheHit),
        compared(pool@[r->0.worker as int]) <= compared(pool@[k]),
{
    let now = now_ns as nat;
    lemma_select(pool, config, exclude, now_ns, found, r, k);
    if r is None {
        assert(!candidate(pool@, exclude, now, k));
    }
    let route = r->0;
    let pick = choose|pick: usize|
        #[trigger] lightest(pool@, exclude, now, pick as int) && follows_rules(
            pool@,
            *config,
            exclude,
            now,
            found@,
            pick as int,
            k,
            route,
        );
    assert(!(route.reason is CacheHit));
}

/// The names of the reasons, as they are logged.
pub proof fn lemma_labels(reason: Reason, r: &'static str)
    requires
        call_ensures(Reason::label, (reason,), r),
    ensures
        reason is SingleAvailable ==> r@ == "single_available"@,
        reason is EmptyText ==> r@ == "empty_text"@,
        reason is HitOverloaded ==> r@ == "hit_overloaded"@,
        reason is CacheHit ==> r@ == "cache_hit"@,
        reason is CacheMiss ==> r@ == "cache_miss"@,
{
}

/// A new router has its replicas in their places and its settings, and knows of
/// each address the empty prefix only: registered in their order, so that the
/// last replica counts.
pub proof fn lemma_new_router(
    workers: Vec<Worker>,
    config: CacheConfig,
    r: CacheRouter,
    i: int,
    text: Seq<char>,
)
    requires
        call_ensures(CacheRouter::new, (workers, config), r),
        workers@.len() < usize::MAX,
    ensures
        r.config == config,
        r.pool@.len() == workers@.len(),
        r.tree.matched(text) == 0,
        0 <= i < workers@.len() ==> {
            &&& r.pool@[i].slot == i
            &&& r.pool@[i] == (WorkerView { slot: r.pool@[i].slot, ..workers@[i]@ })
            &&& r.tree.stamp(Seq::empty(), workers@[i]@.url) is Some
            &&& r.tree.stamp(Seq::empty(), workers@[i]@.url)->0 > i
            &&& r.tree.stamp(Seq::empty(), workers@[workers@.len() - 1]@.url) == Some(workers@.len() as u64)
            &&& r.tree.tenant_views().contains(workers@[i]@.url)
        },
        workers@.len() == 0 ==> r.tree.tenant_views().len() == 0,
        forall|a: int, b: int|
            0 <= a < b < r.tree.tenant_views().len() ==> r.tree.tenant_views()[a] != r.tree.tenant_views()[b],
{
    let pool = views(workers@);
    assert(pool.len() == workers@.len());
    if 0 <= i < workers@.len() {
        assert(pool[i] == workers@[i]@);
        lemma_registered(pool, i);
        lemma_urls_once(pool, i);
    } else if workers@.len() > 0 {
        lemma_urls_once(pool, 0);
    }
    r.tree.lemma_matched(text);
    if r.tree.matched(text) > 0 {
        let p = text.take(r.tree.matched(text) as int);
        let t = choose|t: Seq<char>| (#[trigger] r.tree.stamp(p, t)) is Some;
        assert(r.tree.stamp(p, t) is None);
    }
}

proof fn lemma_registered(pool: Seq<WorkerView>, i: int)
    requires
        0 <= i < pool.len() < usize::MAX,
    ensures
        registered(pool, pool[i].url) is Some,
        i < registered(pool, pool[i].url)->0 <= pool.len(),
    decreases pool.len(),
{
    if pool.last().url != pool[i].url {
        assert(pool.drop_last()[i] == pool[i]);
        lemma_registered(pool.drop_last(), i);
    }
}

proof fn lemma_urls_once(pool: Seq<WorkerView>, i: int)
    requires
        0 <= i < pool.len(),
    ensures
        urls_once(pool).contains(pool[i].url),
        forall|a: int, b: int| 0 <= a < b < urls_once(pool).len() ==> urls_once(pool)[a] != urls_once(pool)[b],
    decreases pool.len(),
{
    let head = pool.drop_last();
    let sofar = urls_once(head);
    let all = urls_once(pool);
    if head.len() > 0 {
        lemma_urls_once(head, if i < head.len() { i } else { 0 });
        if i < head.len() {
            assert(head[i] == pool[i]);
            let k = choose|k: int| 0 <= k < sofar.len() && sofar[k] == pool[i].url;
            assert(all[k] == pool[i].url);
        }
    }
    if !sofar.contains(pool.last().url) {
        assert(all[sofar.len() as int] == pool.last().url);
        assert forall|a: int, b: int| 0 <= a < b < all.len() implies all[a] != all[b] by {
            if b == sofar.len() {
                assert(sofar[a] == all[a]);
                assert(sofar.contains(sofar[a]));
            } else {
                assert(sofar[a] != sofar[b]);
            }
        }
    }
}

/// After a text was recorded for a replica, all of it is held, and was sent to
/// that replica last; an empty text changes nothing.
pub proof fn lemma_recorded(tree: &mut Tree, text: &str, url: &str)
    requires
        old(tree).wf(),
        final(tree).wf(),
        call_ensures(record_text, (tree, text, url), ()),
    ensures
        text@.len() == 0 ==> *final(tree) == *old(tree),
        text@.len() > 0 ==> {
            &&& final(tree).matched(text@) == text@.len()
            &&& final(tree).owner(text@) == Some(url@)
            &&& forall|k: int| 0 <= k <= text@.len() ==> final(tree).last_sent_to(#[trigger] text@.take(k), url@)
        },
{
    if text@.len() > 0 {
        let after = *final(tree);
        after.lemma_recorded_matches(&*old(tree), text@, url@);
        assert(text@.take(text@.len() as int) =~= text@);
        assert forall|k: int| 0 <= k <= text@.len() implies after.last_sent_to(#[trigger] text@.take(k), url@) by {
            after.lemma_follows(&*old(tree), text@, url@, text@, k);
        }
    }
}

/// A route that is recorded leads the same text to the same address.
pub proof fn lemma_recorded_route(router: &mut CacheRouter, worker: usize, text: &str)
    requires
        old(router).wf(),
        final(router).wf(),
        worker < old(router).pool@.len(),
        call_ensures(CacheRouter::record_routed, (router, worker, text), ()),
    ensures
        final(router).pool == old(router).pool,
        final(router).config == old(router).config,
        text@.len() == 0 ==> final(router).tree == old(router).tree,
        text@.len() > 0 ==> final(router).tree.matched(text@) == text@.len() && final(router).tree.owner(text@) == Some(
            old(router).pool@[worker as int].url,
        ),
{
    if text@.len() > 0 {
        let url = old(router).pool@[worker as int].url;
        final(router).tree.lemma_recorded_matches(&old(router).tree, text@, url);
        assert(text@.take(text@.len() as int) =~= text@);
    }
}

/// The replicas of a router are handed out in their places.
pub proof fn lemma_router_workers(router: &CacheRouter, r: &Vec<Worker>, i: int)
    requires
        call_ensures(CacheRouter::workers, (router,), r),
    ensures
        r@.len() == router.pool@.len(),
        0 <= i < router.pool@.len() ==> r@[i]@ == router.pool@[i],
{
    assert(views(r@).len() == r@.len());
    if 0 <= i < router.pool@.len() {
        assert(views(r@)[i] == r@[i]@);
    }
}

/// Eviction touches the tree only, and does to it what eviction of a tree does.
pub proof fn lemma_router_evicts(
    router: &mut CacheRouter,
    tree: &mut Tree,
    max: usize,
    p: Seq<char>,
    t: Seq<char>,
)
    requires
        old(router).wf(),
        *old(tree) == old(router).tree,
        call_ensures(CacheRouter::evict, (router, max), ()),
        call_ensures(Tree::evict_tenant_by_size, (tree, max), ()),
    ensures
        final(router).pool == old(router).pool,
        final(router).config == old(router).config,
        final(router).tree.stamp(p, t) == final(tree).stamp(p, t),
        final(router).tree.ends(p) == final(tree).ends(p),
        final(router).tree.tenant_views() == old(router).tree.tenant_views(),
{
    if final(router).tree.holds(p) {
        let s = choose|s: Seq<char>| (#[trigger] final(router).tree.stamp(p, s)) is Some;
        assert(final(tree).stamp(p, s) is Some);
    }
    if final(tree).holds(p) {
        let s = choose|s: Seq<char>| (#[trigger] final(tree).stamp(p, s)) is Some;
        assert(final(router).tree.stamp(p, s) is Some);
    }
}

/// What is recorded of a text is what the tree records of it, and nothing else
/// of the router changes.
pub proof fn lemma_recorded_as_inserted(
    tree: &mut Tree,
    router: &mut CacheRouter,
    inserted: &mut Tree,
    worker: usize,
    text: &str,
    url: &str,
    p: Seq<char>,
    t: Seq<char>,
)
    requires
        *old(inserted) == *old(tree),
        *old(inserted) == old(router).tree,
        worker < old(router).pool@.len(),
        url@ == old(router).pool@[worker as int].url,
        text@.len() > 0,
        call_ensures(record_text, (tree, text, url), ()),
        call_ensures(CacheRouter::record_routed, (router, worker, text), ()),
        call_ensures(Tree::insert, (inserted, text, url), ()),
    ensures
        final(tree).stamp(p, t) == final(inserted).stamp(p, t),
        final(tree).tenant_views() == final(inserted).tenant_views(),
        final(tree).ends(p) == final(inserted).ends(p),
        final(router).tree.stamp(p, t) == final(inserted).stamp(p, t),
        final(router).tree.tenant_views() == final(inserted).tenant_views(),
        final(router).tree.ends(p) == final(inserted).ends(p),
        final(router).pool == old(router).pool,
        final(router).config == old(router).config,
{
}

} // verus!
