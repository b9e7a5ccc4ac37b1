//! The pool of replicas: who may get a request, and who is least loaded.

use crate::worker::{admits, LoadGuard, Worker, WorkerView};
use vstd::prelude::*;

verus! {

/// A pool of replicas.
#[derive(Debug)]
pub struct Pool {
    workers: Vec<Worker>,
}

/// Replicas as mathematical values.
pub open spec fn views(workers: Seq<Worker>) -> Seq<WorkerView> {
    Seq::new(workers.len(), |i: int| workers[i]@)
}

/// Replicas in their places.
pub open spec fn placed(pool: Seq<WorkerView>) -> Seq<WorkerView> {
    Seq::new(pool.len(), |i: int| WorkerView { slot: i as nat, ..pool[i] })
}

/// Whether the `i`-th replica may get the request.
pub open spec fn usable(pool: Seq<WorkerView>, exclude: Option<usize>, now: nat, i: int) -> bool {
    0 <= i < pool.len() && pool[i].available(now) && exclude != Some(i as usize)
}

/// Whether no replica that may get the request has less load than the `i`-th.
pub open spec fn least_loaded(pool: Seq<WorkerView>, exclude: Option<usize>, now: nat, i: int) -> bool {
    &&& usable(pool, exclude, now, i)
    &&& forall|j: int|
        usable(pool, exclude, now, j) ==> pool[i].effective_load() <= (#[trigger] pool[j]).effective_load()
}

/// Whether only one replica may get the request.
pub open spec fn single(pool: Seq<WorkerView>, exclude: Option<usize>, now: nat, i: int) -> bool {
    &&& usable(pool, exclude, now, i)
    &&& forall|j: int| usable(pool, exclude, now, j) ==> j == i
}

/// Whether no replica may get the request.
pub open spec fn nobody(pool: Seq<WorkerView>, exclude: Option<usize>, now: nat) -> bool {
    forall|i: int| !usable(pool, exclude, now, i)
}

/// Whether `tied` holds the least loaded replicas, and no others.
pub open spec fn all_least_loaded(tied: Seq<usize>, pool: Seq<WorkerView>, exclude: Option<usize>, now: nat) -> bool {
    forall|i: usize| tied.contains(i) <==> #[trigger] least_loaded(pool, exclude, now, i as int)
}

/// Whether no replica has this address.
pub open spec fn unknown_url(pool: Seq<WorkerView>, url: Seq<char>) -> bool {
    forall|i: int| !first_with_url(pool, url, i)
}

/// Whether the `i`-th replica is the first with this address.
pub open spec fn first_with_url(pool: Seq<WorkerView>, url: Seq<char>, i: int) -> bool {
    &&& 0 <= i < pool.len()
    &&& pool[i].url == url
    &&& forall|j: int| 0 <= j < i ==> (#[trigger] pool[j]).url != url
}

pub(crate) proof fn lemma_first_unique(pool: Seq<WorkerView>, url: Seq<char>, i: int, k: int)
    requires
        first_with_url(pool, url, i),
        first_with_url(pool, url, k),
    ensures
        i == k,
{
    if i < k {
        assert(pool[i].url != url);
    } else if k < i {
        assert(pool[k].url != url);
    }
}

impl View for Pool {
    type V = Seq<WorkerView>;

    closed spec fn view(&self) -> Seq<WorkerView> {
        views(self.workers@)
    }
}

impl Pool {
    /// Every replica stands in its place.
    pub closed spec fn wf(&self) -> bool {
        forall|i: int| 0 <= i < self.workers@.len() ==> (#[trigger] self.workers@[i]).wf() && self.workers@[i]@.slot == i
    }

    /// A pool is no longer than a vector can be, and its places are numbered.
    pub proof fn lemma_places(&self)
        requires
            self.wf(),
        ensures
            self@.len() <= usize::MAX,
            forall|i: int| 0 <= i < self@.len() ==> (#[trigger] self@[i]).slot == i,
    {
        assert(self.workers.len() == self.workers@.len());
        assert forall|i: int| 0 <= i < self@.len() implies (#[trigger] self@[i]).slot == i by {
            assert(self.workers@[i]@.slot == i);
        }
    }

    /// A pool of these replicas, in this order.
    pub fn new(workers: Vec<Worker>) -> (r: Self)
        requires
            forall|i: int| 0 <= i < workers@.len() ==> (#[trigger] workers@[i]).wf(),
        ensures
            r.wf(),
            r@ == placed(views(workers@)),
    {
        let ghost all = workers@;
        let mut workers = workers;
        let mut i: usize = 0;
        while i < workers.len()
            invariant
                i <= workers@.len(),
                workers@.len() == all.len(),
                forall|j: int| 0 <= j < all.len() ==> (#[trigger] workers@[j]).wf(),
                forall|j: int|
                    0 <= j < i ==> (#[trigger] workers@[j])@ == (WorkerView { slot: j as nat, ..all[j]@ }),
                forall|j: int| i <= j < all.len() ==> (#[trigger] workers@[j]) == all[j],
            decreases workers.len() - i,
        {
            workers[i].place(i);
            i += 1;
        }
        let pool = Pool { workers };
        assert(pool@ =~= placed(views(all)));
        pool
    }

    /// The replicas.
    pub fn workers(&self) -> (r: &Vec<Worker>)
        ensures
            views(r@) == self@,
    {
        &self.workers
    }

    /// The replicas that may get the request, of those the ones with the least
    /// load, in their order.
    pub fn least_loaded_workers(&self, exclude: Option<usize>, now_ns: u64) -> (r: Vec<usize>)
        requires
            self.wf(),
        ensures
            forall|i: usize|
                r@.contains(i) <==> #[trigger] least_loaded(self@, exclude, now_ns as nat, i as int),
            all_least_loaded(r@, self@, exclude, now_ns as nat),
            forall|i: int, j: int| 0 <= i < j < r@.len() ==> r@[i] < r@[j],
            r@.len() == 0 <==> forall|i: int| !usable(self@, exclude, now_ns as nat, i),
            r@.len() == 0 <==> nobody(self@, exclude, now_ns as nat),
    {
        let ghost pool = self@;
        let ghost now = now_ns as nat;
        let mut tied: Vec<usize> = Vec::new();
        let mut least: usize = 0;
        let mut i: usize = 0;
        while i < self.workers.len()
            invariant
                pool == self@,
                now == now_ns as nat,
                i <= self.workers@.len(),
                tied@.len() == 0 ==> forall|j: int| 0 <= j < i ==> !#[trigger] usable(pool, exclude, now, j),
                forall|j: int, k: int| 0 <= j < k < tied@.len() ==> tied@[j] < tied@[k],
                forall|k: int|
                    0 <= k < tied@.len() ==> {
                        &&& (#[trigger] tied@[k]) < i
                        &&& usable(pool, exclude, now, tied@[k] as int)
                        &&& pool[tied@[k] as int].effective_load() == least
                    },
                forall|j: int|
                    0 <= j < i && #[trigger] usable(pool, exclude, now, j) ==> {
                        &&& least <= pool[j].effective_load()
                        &&& pool[j].effective_load() == least ==> tied@.contains(j as usize)
                    },
            decreases self.workers.len() - i,
        {
            let ghost tied_before = tied@;
            assert(pool[i as int] == self.workers@[i as int]@);
            if self.is_usable(i, exclude, now_ns) {
                let load = self.workers[i].effective_load();
                if tied.len() == 0 || load < least {
                    tied = Vec::new();
                    least = load;
                    tied.push(i);
                    assert(tied@[0] == i);
                    assert(tied@.contains(i));
                } else if load == least {
                    tied.push(i);
                    assert(tied@[tied_before.len() as int] == i);
                    assert forall|x: usize| tied_before.contains(x) implies tied@.contains(x) by {
                        let k = choose|k: int| 0 <= k < tied_before.len() && tied_before[k] == x;
                        assert(tied@[k] == x);
                    }
                }
            }
            i += 1;
        }
        proof {
            assert forall|i: usize| tied@.contains(i) <==> #[trigger] least_loaded(pool, exclude, now, i as int) by {
                if tied@.contains(i) {
                    let k = choose|k: int| 0 <= k < tied@.len() && tied@[k] == i;
                    assert forall|j: int| usable(pool, exclude, now, j) implies pool[i as int].effective_load()
                        <= (#[trigger] pool[j]).effective_load() by {
                        assert(usable(pool, exclude, now, j));
                    }
                }
                if least_loaded(pool, exclude, now, i as int) {
                    assert(usable(pool, exclude, now, i as int));
                    let first = tied@[0] as int;
                    assert(usable(pool, exclude, now, first));
                    assert(pool[i as int].effective_load() <= pool[first].effective_load());
                }
            }
        }
        tied
    }

    /// Whether the `i`-th replica may get the request.
    pub fn is_usable(&self, i: usize, exclude: Option<usize>, now_ns: u64) -> (r: bool)
        requires
            i < self@.len(),
        ensures
            r == usable(self@, exclude, now_ns as nat, i as int),
    {
        let excluded = match exclude {
            Some(e) => e == i,
            None => false,
        };
        !excluded && self.workers[i].is_available(now_ns)
    }

    /// Whether only the `i`-th replica may get the request.
    pub fn is_single(&self, i: usize, exclude: Option<usize>, now_ns: u64) -> (r: bool)
        requires
            usable(self@, exclude, now_ns as nat, i as int),
        ensures
            r == single(self@, exclude, now_ns as nat, i as int),
    {
        let mut j: usize = 0;
        while j < self.workers.len()
            invariant
                j <= self.workers@.len(),
                usable(self@, exclude, now_ns as nat, i as int),
                forall|k: int| 0 <= k < j && #[trigger] usable(self@, exclude, now_ns as nat, k) ==> k == i,
            decreases self.workers.len() - j,
        {
            if j != i && self.is_usable(j, exclude, now_ns) {
                return false;
            }
            j += 1;
        }
        true
    }

    /// The first replica with this address.
    pub fn find_worker(&self, url: &String) -> (r: Option<usize>)
        ensures
            match r {
                Some(i) => first_with_url(self@, url@, i as int),
                None => forall|i: int| !first_with_url(self@, url@, i),
            },
            r is None ==> unknown_url(self@, url@),
    {
        let ghost pool = self@;
        let mut i: usize = 0;
        while i < self.workers.len()
            invariant
                pool == self@,
                i <= self.workers@.len(),
                forall|j: int| 0 <= j < i ==> (#[trigger] pool[j]).url != url@,
            decreases self.workers.len() - i,
        {
            assert(pool[i as int] == self.workers@[i as int]@);
            if self.workers[i].has_url(url) {
                return Some(i);
            }
            i += 1;
        }
        None
    }

    /// Adds one request to the load of a replica.
    pub fn acquire(&mut self, i: usize) -> (r: LoadGuard)
        requires
            old(self).wf(),
            i < old(self)@.len(),
        ensures
            final(self).wf(),
            final(self)@ == old(self)@.update(i as int, old(self)@[i as int].incremented()),
            r.belongs_to(old(self)@[i as int]),
            r.worker_slot() == i,
    {
        let ghost before = self.workers@;
        let guard = LoadGuard::new(&mut self.workers[i]);
        proof {
            lemma_updated(before, self.workers@, i as int);
        }
        guard
    }

    /// Whether a guard stands for a request to a replica of this pool.
    pub fn owns(&self, guard: &LoadGuard) -> (r: bool)
        requires
            self.wf(),
        ensures
            r == (guard.worker_slot() < self@.len() && guard.belongs_to(self@[guard.worker_slot() as int])),
    {
        guard.slot() < self.workers.len() && guard.covers(&self.workers[guard.slot()])
    }

    /// Takes a request off the load of its replica, which the guard knows.
    pub fn release(&mut self, guard: LoadGuard)
        requires
            old(self).wf(),
            guard.worker_slot() < old(self)@.len(),
            guard.belongs_to(old(self)@[guard.worker_slot() as int]),
        ensures
            final(self).wf(),
            final(self)@ == old(self)@.update(
                guard.worker_slot() as int,
                old(self)@[guard.worker_slot() as int].decremented(),
            ),
    {
        let ghost before = self.workers@;
        let i = guard.slot();
        guard.release(&mut self.workers[i]);
        proof {
            lemma_updated(before, self.workers@, i as int);
        }
    }

    /// Takes a request off the load of a replica: the end of a stream whose
    /// guard was disarmed.
    pub fn end_stream(&mut self, i: usize)
        requires
            old(self).wf(),
            i < old(self)@.len(),
        ensures
            final(self).wf(),
            final(self)@ == old(self)@.update(i as int, old(self)@[i as int].decremented()),
    {
        let ghost before = self.workers@;
        self.workers[i].decrement_load();
        proof {
            lemma_updated(before, self.workers@, i as int);
        }
    }

    /// Takes note of the outcome of a request.
    pub fn record_outcome(&mut self, i: usize, success: bool, now_ns: u64)
        requires
            old(self).wf(),
            i < old(self)@.len(),
        ensures
            final(self).wf(),
            final(self)@ == old(self)@.update(i as int, old(self)@[i as int].after_outcome(success, now_ns as nat)),
    {
        let ghost before = self.workers@;
        self.workers[i].record_outcome(success, now_ns);
        proof {
            lemma_updated(before, self.workers@, i as int);
        }
    }

    /// Takes note of a health check.
    pub fn check_health(&mut self, i: usize, ok: bool)
        requires
            old(self).wf(),
            i < old(self)@.len(),
            old(self)@[i as int].failures < usize::MAX,
            old(self)@[i as int].successes < usize::MAX,
        ensures
            final(self).wf(),
            final(self)@ == old(self)@.update(i as int, old(self)@[i as int].checked(ok)),
    {
        let ghost before = self.workers@;
        self.workers[i].check_health(ok);
        proof {
            lemma_updated(before, self.workers@, i as int);
        }
    }
}

/// Replacing one replica replaces its view.
proof fn lemma_updated(before: Seq<Worker>, after: Seq<Worker>, i: int)
    requires
        0 <= i < before.len(),
        after == before.update(i, after[i]),
    ensures
        views(after) == views(before).update(i, after[i]@),
{
    assert(views(after) =~= views(before).update(i, after[i]@));
}

// ---------------------------------------------------------------------------
// Laws
// ---------------------------------------------------------------------------

/// Who may get a request, field by field: a replica of the pool that admits it
/// and is not the one to be avoided.
pub open spec fn candidate(pool: Seq<WorkerView>, exclude: Option<usize>, now: nat, i: int) -> bool {
    &&& 0 <= i < pool.len()
    &&& admits(pool[i], now)
    &&& match exclude {
        Some(e) => e != i,
        None => true,
    }
}

/// The load that a replica is compared by.
pub open spec fn compared(w: WorkerView) -> nat {
    if w.load + w.load_penalty <= usize::MAX {
        w.load + w.load_penalty
    } else {
        usize::MAX as nat
    }
}

/// A replica of the pool is usable exactly if it is a candidate.
pub proof fn lemma_usable(pool: &Pool, i: usize, exclude: Option<usize>, now_ns: u64, r: bool)
    requires
        pool.wf(),
        i < pool@.len(),
        call_ensures(Pool::is_usable, (pool, i, exclude, now_ns), r),
    ensures
        r <==> candidate(pool@, exclude, now_ns as nat, i as int),
        forall|k: int| usable(pool@, exclude, now_ns as nat, k) <==> #[trigger] candidate(pool@, exclude, now_ns as nat, k),
{
    pool.lemma_places();
    lemma_candidates(pool@, exclude, now_ns as nat);
}

pub(crate) proof fn lemma_candidates(pool: Seq<WorkerView>, exclude: Option<usize>, now: nat)
    requires
        pool.len() <= usize::MAX,
    ensures
        forall|k: int| usable(pool, exclude, now, k) <==> #[trigger] candidate(pool, exclude, now, k),
{
}

/// The least loaded replicas are the candidates that no candidate has less load
/// than, each of them once and in their order.
pub proof fn lemma_least_loaded(pool: &Pool, exclude: Option<usize>, now_ns: u64, r: Vec<usize>)
    requires
        pool.wf(),
        call_ensures(Pool::least_loaded_workers, (pool, exclude, now_ns), r),
    ensures
        forall|i: usize|
            #[trigger] r@.contains(i) <==> candidate(pool@, exclude, now_ns as nat, i as int) && forall|j: int|
                #[trigger] candidate(pool@, exclude, now_ns as nat, j) ==> compared(pool@[i as int]) <= compared(pool@[j]),
        forall|i: int, j: int| 0 <= i < j < r@.len() ==> r@[i] < r@[j],
        r@.len() == 0 <==> forall|i: int| !candidate(pool@, exclude, now_ns as nat, i),
{
    pool.lemma_places();
    let now = now_ns as nat;
    lemma_candidates(pool@, exclude, now);
    assert forall|i: usize| #[trigger] r@.contains(i) <==> candidate(pool@, exclude, now, i as int) && forall|j: int|
        #[trigger] candidate(pool@, exclude, now, j) ==> compared(pool@[i as int]) <= compared(pool@[j]) by {
        assert(r@.contains(i) <==> least_loaded(pool@, exclude, now, i as int));
        assert(candidate(pool@, exclude, now, i as int) == usable(pool@, exclude, now, i as int));
        if least_loaded(pool@, exclude, now, i as int) {
            assert forall|j: int| #[trigger] candidate(pool@, exclude, now, j) implies compared(pool@[i as int])
                <= compared(pool@[j]) by {
                assert(usable(pool@, exclude, now, j));
                assert(pool@[i as int].effective_load() <= pool@[j].effective_load());
            }
        }
        if candidate(pool@, exclude, now, i as int) && forall|j: int|
            #[trigger] candidate(pool@, exclude, now, j) ==> compared(pool@[i as int]) <= compared(pool@[j]) {
            assert forall|j: int| usable(pool@, exclude, now, j) implies pool@[i as int].effective_load()
                <= (#[trigger] pool@[j]).effective_load() by {
                assert(candidate(pool@, exclude, now, j));
            }
        }
    }
    if r@.len() == 0 {
        assert forall|i: int| !candidate(pool@, exclude, now, i) by {
            assert(!usable(pool@, exclude, now, i));
        }
    }
    if forall|i: int| !candidate(pool@, exclude, now, i) {
        assert forall|i: int| !usable(pool@, exclude, now, i) by {
            assert(!candidate(pool@, exclude, now, i));
        }
    }
}

/// A replica is the single one exactly if no other one is a candidate.
pub proof fn lemma_single(pool: &Pool, i: usize, exclude: Option<usize>, now_ns: u64, r: bool)
    requires
        pool.wf(),
        candidate(pool@, exclude, now_ns as nat, i as int),
        call_ensures(Pool::is_single, (pool, i, exclude, now_ns), r),
    ensures
        r <==> forall|j: int| #[trigger] candidate(pool@, exclude, now_ns as nat, j) ==> j == i,
{
    pool.lemma_places();
    let now = now_ns as nat;
    lemma_candidates(pool@, exclude, now);
    assert(candidate(pool@, exclude, now, i as int) == usable(pool@, exclude, now, i as int));
    if r {
        assert forall|j: int| #[trigger] candidate(pool@, exclude, now, j) implies j == i by {
            assert(usable(pool@, exclude, now, j));
        }
    } else {
        let j = choose|j: int| usable(pool@, exclude, now, j) && j != i;
        assert(candidate(pool@, exclude, now, j));
    }
}

/// An address is found at the first replica that has it.
pub proof fn lemma_found_first(pool: &Pool, url: &String, r: Option<usize>)
    requires
        call_ensures(Pool::find_worker, (pool, url), r),
    ensures
        r is None <==> forall|i: int| 0 <= i < pool@.len() ==> (#[trigger] pool@[i]).url != url@,
        r matches Some(i) ==> i < pool@.len() && pool@[i as int].url == url@ && forall|j: int|
            0 <= j < i ==> (#[trigger] pool@[j]).url != url@,
{
    if r is None {
        assert forall|i: int| 0 <= i < pool@.len() implies (#[trigger] pool@[i]).url != url@ by {
            lemma_no_first(pool@, url@, i);
        }
    }
}

proof fn lemma_no_first(pool: Seq<WorkerView>, url: Seq<char>, i: int)
    requires
        forall|k: int| !first_with_url(pool, url, k),
        0 <= i < pool.len(),
    ensures
        pool[i].url != url,
    decreases i,
{
    if pool[i].url == url {
        assert forall|j: int| 0 <= j < i implies (#[trigger] pool[j]).url != url by {
            lemma_no_first(pool, url, j);
        }
        assert(first_with_url(pool, url, i));
    }
}

/// A pool holds the replicas that it was given, in their order, each in its
/// place.
pub proof fn lemma_new_pool(workers: Vec<Worker>, r: Pool, i: int)
    requires
        call_ensures(Pool::new, (workers,), r),
    ensures
        r@.len() == workers@.len(),
        0 <= i < workers@.len() ==> r@[i].slot == i && r@[i] == (WorkerView { slot: r@[i].slot, ..workers@[i]@ }),
{
}

/// A request that starts is counted on its replica and nowhere else; when it
/// ends, it is counted off there and nowhere else.
pub proof fn lemma_pool_load(
    pool: &mut Pool,
    i: usize,
    guard: LoadGuard,
    later: &mut Pool,
    stream: &mut Pool,
    k: int,
)
    requires
        i < old(pool)@.len(),
        guard.worker_slot() < old(later)@.len(),
        i < old(stream)@.len(),
        call_ensures(Pool::acquire, (pool, i), guard),
        call_ensures(Pool::release, (later, guard), ()),
        call_ensures(Pool::end_stream, (stream, i), ()),
    ensures
        guard.worker_slot() == i,
        guard.worker_url() == old(pool)@[i as int].url,
        final(pool)@.len() == old(pool)@.len(),
        old(pool)@[i as int].load < usize::MAX ==> final(pool)@[i as int].load == old(pool)@[i as int].load + 1,
        final(later)@.len() == old(later)@.len(),
        old(later)@[i as int].load > 0 ==> final(later)@[i as int].load == old(later)@[i as int].load - 1,
        old(later)@[i as int].load == 0 ==> final(later)@[i as int].load == 0,
        final(stream)@.len() == old(stream)@.len(),
        old(stream)@[i as int].load > 0 ==> final(stream)@[i as int].load == old(stream)@[i as int].load - 1,
        old(stream)@[i as int].load == 0 ==> final(stream)@[i as int].load == 0,
        0 <= k < old(pool)@.len() && k != i ==> final(pool)@[k] == old(pool)@[k],
        0 <= k < old(later)@.len() && k != i ==> final(later)@[k] == old(later)@[k],
        0 <= k < old(stream)@.len() && k != i ==> final(stream)@[k] == old(stream)@[k],
        final(pool)@[i as int] == (WorkerView { load: final(pool)@[i as int].load, ..old(pool)@[i as int] }),
        final(later)@[i as int] == (WorkerView { load: final(later)@[i as int].load, ..old(later)@[i as int] }),
        final(stream)@[i as int] == (WorkerView { load: final(stream)@[i as int].load, ..old(stream)@[i as int] }),
{
}

/// Whether a guard is of this pool: its replica stands in its place.
pub proof fn lemma_owned(pool: &Pool, guard: &LoadGuard, r: bool)
    requires
        call_ensures(Pool::owns, (pool, guard), r),
    ensures
        r <==> {
            &&& guard.worker_slot() < pool@.len()
            &&& pool@[guard.worker_slot() as int].url == guard.worker_url()
            &&& pool@[guard.worker_slot() as int].slot == guard.worker_slot()
        },
{
}

/// An outcome is noted by the breaker of the replica, and nothing else changes.
pub proof fn lemma_pool_outcome(pool: &mut Pool, i: usize, success: bool, now_ns: u64, k: int)
    requires
        i < old(pool)@.len(),
        0 <= k < old(pool)@.len(),
        call_ensures(Pool::record_outcome, (pool, i, success, now_ns), ()),
    ensures
        final(pool)@.len() == old(pool)@.len(),
        k != i ==> final(pool)@[k] == old(pool)@[k],
        final(pool)@[i as int].breaker == old(pool)@[i as int].breaker.outcome(success, now_ns as nat),
        final(pool)@[i as int] == (WorkerView { breaker: final(pool)@[i as int].breaker, ..old(pool)@[i as int] }),
{
}

/// A health check concerns one replica: it counts, and health changes where a
/// row of checks reaches its threshold.
pub proof fn lemma_pool_check(pool: &mut Pool, i: usize, ok: bool, k: int)
    requires
        i < old(pool)@.len(),
        0 <= k < old(pool)@.len(),
        call_ensures(Pool::check_health, (pool, i, ok), ()),
    ensures
        final(pool)@.len() == old(pool)@.len(),
        k != i ==> final(pool)@[k] == old(pool)@[k],
        ok ==> final(pool)@[i as int].successes == old(pool)@[i as int].successes + 1 && final(pool)@[i as int].failures
            == 0,
        !ok ==> final(pool)@[i as int].failures == old(pool)@[i as int].failures + 1
            && final(pool)@[i as int].successes == 0,
        ok ==> (final(pool)@[i as int].healthy <==> old(pool)@[i as int].healthy || old(pool)@[i as int].successes + 1
            >= old(pool)@[i as int].health.success_threshold),
        !ok ==> (final(pool)@[i as int].healthy <==> old(pool)@[i as int].healthy && old(pool)@[i as int].failures + 1
            < old(pool)@[i as int].health.failure_threshold),
        final(pool)@[i as int].load == old(pool)@[i as int].load,
        final(pool)@[i as int].breaker == old(pool)@[i as int].breaker,
{
}

/// The replicas of a pool are handed out in their places.
pub proof fn lemma_pool_workers(pool: &Pool, r: &Vec<Worker>, i: int)
    requires
        call_ensures(Pool::workers, (pool,), r),
    ensures
        r@.len() == pool@.len(),
        0 <= i < pool@.len() ==> r@[i]@ == pool@[i],
{
    assert(views(r@).len() == r@.len());
    if 0 <= i < pool@.len() {
        assert(views(r@)[i] == r@[i]@);
    }
}

} // verus!
