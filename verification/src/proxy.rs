//! Forwarding a request: headers, attempts, and what becomes of a reply.

use crate::circuit_breaker::{after_outcomes_at, lemma_failures_in_a_row_open};
use crate::config::{CacheConfig, ProxyConfig};
use crate::metrics;
use crate::pool::{candidate, lemma_candidates, nobody, usable, Pool};
use crate::routing::{decided, lemma_decided_by_rules, record_text, recorded_text, routed_by_rules, select, Route};
use crate::text::chars_of;
use crate::tree::{PrefixMatch, Tree};
use crate::worker::{admits, LoadGuard, WorkerView};
use vstd::prelude::*;
use vstd::string::*;

verus! {

// ---------------------------------------------------------------------------
// Statuses
// ---------------------------------------------------------------------------

/// Whether a status of HTTP is safe to retry.
pub open spec fn retryable(status: u16) -> bool {
    status == 408 || status == 429 || status == 500 || status == 502 || status == 503 || status == 504
}

/// Whether a status of HTTP is safe to retry.
pub fn is_retryable_status(status: u16) -> (r: bool)
    ensures
        r == retryable(status),
{
    status == 408 || status == 429 || status == 500 || status == 502 || status == 503 || status == 504
}

/// Whether a replica that answers with this status did its work: it succeeded,
/// or the client was to blame.
pub open spec fn counts_as_success(status: u16) -> bool {
    200 <= status <= 299 || 400 <= status <= 499
}

/// The status that stands for a replica that could not be reached or did not
/// answer.
pub fn transport_status(timed_out: bool) -> (r: u16)
    ensures
        r == if timed_out {
            504u16
        } else {
            502u16
        },
{
    if timed_out {
        504
    } else {
        502
    }
}

/// The delay before a retry, before jitter: at most the configured one.
pub fn capped_backoff(config: &ProxyConfig, base_ms: u64) -> (r: u64)
    ensures
        r == if base_ms < config.max_backoff_ms {
            base_ms
        } else {
            config.max_backoff_ms
        },
{
    if base_ms < config.max_backoff_ms {
        base_ms
    } else {
        config.max_backoff_ms
    }
}

/// The address that a request is forwarded to: the path, and the query where
/// there is one, stay as they are.
pub fn forward_url(worker_url: &str, path: &str) -> (r: String)
    ensures
        r@ == worker_url@ + path@,
{
    worker_url.to_owned().concat(path)
}

// ---------------------------------------------------------------------------
// Headers
// ---------------------------------------------------------------------------

/// A header, with its name in lower case.
#[derive(Debug)]
pub struct Header {
    pub name: String,
    pub value: Vec<u8>,
}

/// A header as a mathematical value.
pub type HeaderPair = (Seq<char>, Seq<u8>);

/// Headers as mathematical values.
pub open spec fn header_views(headers: Seq<Header>) -> Seq<HeaderPair> {
    Seq::new(headers.len(), |i: int| (headers[i].name@, headers[i].value@))
}

/// Headers that are not forwarded: the forwarding sets its own.
pub open spec fn stripped(name: Seq<char>) -> bool {
    name == "host"@ || name == "content-length"@ || name == "transfer-encoding"@
}

/// Where a header with this name stands.
pub open spec fn header_at(headers: Seq<HeaderPair>, name: Seq<char>, i: int) -> bool {
    0 <= i < headers.len() && headers[i].0 == name
}

/// The headers that are forwarded: each name once, where it first occurs, with
/// the value that it has last.
pub open spec fn forwarded(headers: Seq<HeaderPair>) -> Seq<HeaderPair>
    decreases headers.len(),
{
    if headers.len() == 0 {
        Seq::empty()
    } else {
        let sofar = forwarded(headers.drop_last());
        let (name, value) = headers.last();
        if stripped(name) {
            sofar
        } else if exists|i: int| header_at(sofar, name, i) {
            sofar.update(choose|i: int| header_at(sofar, name, i), (name, value))
        } else {
            sofar.push((name, value))
        }
    }
}

/// No name occurs twice.
pub open spec fn distinct_names(headers: Seq<HeaderPair>) -> bool {
    forall|i: int, j: int|
        0 <= i < j < headers.len() ==> (#[trigger] headers[i]).0 != (#[trigger] headers[j]).0
}

fn is_stripped(name: &String) -> (r: bool)
    ensures
        r == stripped(name@),
{
    *name == "host".to_owned() || *name == "content-length".to_owned() || *name == "transfer-encoding".to_owned()
}

fn find_header(headers: &Vec<Header>, name: &String) -> (r: Option<usize>)
    ensures
        match r {
            Some(i) => header_at(header_views(headers@), name@, i as int),
            None => forall|i: int| !header_at(header_views(headers@), name@, i),
        },
{
    let mut i: usize = 0;
    while i < headers.len()
        invariant
            i <= headers@.len(),
            forall|j: int| 0 <= j < i ==> !header_at(header_views(headers@), name@, j),
        decreases headers.len() - i,
    {
        if headers[i].name == *name {
            return Some(i);
        }
        i += 1;
    }
    None
}

/// The headers to forward.
pub fn build_forward_headers(incoming: Vec<Header>) -> (r: Vec<Header>)
    ensures
        header_views(r@) == forwarded(header_views(incoming@)),
{
    let mut headers: Vec<Header> = Vec::new();
    let ghost all = incoming@;
    proof {
        assert(header_views(all.take(0)) =~= Seq::empty());
        assert(header_views(headers@) =~= Seq::empty());
    }
    for header in it: incoming
        invariant
            it.seq() == all,
            header_views(headers@) == forwarded(header_views(all.take(it.index()))),
    {
        let ghost n = it.index();
        let ghost sofar = header_views(headers@);
        proof {
            lemma_forwarded_distinct(header_views(all.take(n)));
            assert(header_views(all.take(n + 1)).drop_last() =~= header_views(all.take(n)));
            assert(header_views(all.take(n + 1)).last() == (header.name@, header.value@));
        }
        if !is_stripped(&header.name) {
            match find_header(&headers, &header.name) {
                Some(i) => {
                    proof {
                        let k = choose|k: int| header_at(sofar, header.name@, k);
                        assert(header_at(sofar, header.name@, k));
                        if k < i {
                            assert(sofar[k].0 != sofar[i as int].0);
                        } else if i < k {
                            assert(sofar[i as int].0 != sofar[k].0);
                        }
                    }
                    let ghost pair = (header.name@, header.value@);
                    headers.set(i, header);
                    assert(header_views(headers@) =~= sofar.update(i as int, pair));
                },
                None => {
                    let ghost pair = (header.name@, header.value@);
                    headers.push(header);
                    assert(header_views(headers@) =~= sofar.push(pair));
                },
            }
        }
    }
    assert(all.take(all.len() as int) =~= all);
    headers
}

proof fn lemma_forwarded_distinct(headers: Seq<HeaderPair>)
    ensures
        distinct_names(forwarded(headers)),
    decreases headers.len(),
{
    if headers.len() > 0 {
        lemma_forwarded_distinct(headers.drop_last());
        let sofar = forwarded(headers.drop_last());
        let name = headers.last().0;
        if !stripped(name) && !exists|i: int| header_at(sofar, name, i) {
            assert forall|i: int| 0 <= i < sofar.len() implies (#[trigger] sofar[i]).0 != name by {
                assert(!header_at(sofar, name, i));
            }
        }
    }
}

/// What is forwarded: no name twice, and a header exactly if it came with the
/// request, is not one that the forwarding sets, and no later one has its name.
pub proof fn lemma_forwarded(headers: Seq<HeaderPair>, name: Seq<char>, value: Seq<u8>)
    ensures
        distinct_names(forwarded(headers)),
        forwarded(headers).contains((name, value)) <==> !stripped(name) && exists|i: int|
            last_header(headers, name, i) && headers[i].1 == value,
    decreases headers.len(),
{
    lemma_forwarded_distinct(headers);
    if headers.len() > 0 {
        let head = headers.drop_last();
        let sofar = forwarded(head);
        let (last, last_value) = headers.last();
        let n = headers.len() - 1;
        lemma_forwarded(head, name, value);
        let result = forwarded(headers);
        if name == last {
            assert(last_header(headers, name, n));
            assert forall|i: int| last_header(headers, name, i) implies i == n by {
                if i < n {
                    assert(headers[n].0 != name);
                }
            }
            if !stripped(last) {
                if exists|i: int| header_at(sofar, last, i) {
                    let i = choose|i: int| header_at(sofar, last, i);
                    assert(result[i] == (last, last_value));
                    if result.contains((name, value)) {
                        let k = choose|k: int| 0 <= k < result.len() && result[k] == (name, value);
                        if k < i {
                            assert(result[k].0 != result[i].0);
                        } else if i < k {
                            assert(result[i].0 != result[k].0);
                        }
                    }
                } else {
                    assert(result[sofar.len() as int] == (last, last_value));
                    if result.contains((name, value)) {
                        let k = choose|k: int| 0 <= k < result.len() && result[k] == (name, value);
                        if k < sofar.len() {
                            assert(header_at(sofar, last, k));
                        }
                    }
                }
            } else {
                if result.contains((name, value)) {
                    assert(sofar.contains((name, value)));
                }
            }
        } else {
            assert forall|i: int| last_header(headers, name, i) == (last_header(head, name, i)) by {
                if last_header(headers, name, i) {
                    assert forall|j: int| i < j < head.len() implies (#[trigger] head[j]).0 != name by {
                        assert(headers[j].0 != name);
                    }
                }
                if last_header(head, name, i) {
                    assert forall|j: int| i < j < headers.len() implies (#[trigger] headers[j]).0 != name by {
                        if j < n {
                            assert(head[j].0 != name);
                        }
                    }
                }
            }
            assert(result.contains((name, value)) == sofar.contains((name, value))) by {
                if sofar.contains((name, value)) {
                    let k = choose|k: int| 0 <= k < sofar.len() && sofar[k] == (name, value);
                    assert(result[k] == (name, value));
                }
                if result.contains((name, value)) {
                    let k = choose|k: int| 0 <= k < result.len() && result[k] == (name, value);
                    assert(sofar[k] == (name, value));
                }
            }
            if exists|i: int| last_header(headers, name, i) && headers[i].1 == value {
                let i = choose|i: int| last_header(headers, name, i) && headers[i].1 == value;
                assert(last_header(head, name, i) && head[i].1 == value);
            }
            if exists|i: int| last_header(head, name, i) && head[i].1 == value {
                let i = choose|i: int| last_header(head, name, i) && head[i].1 == value;
                assert(last_header(headers, name, i) && headers[i].1 == value);
            }
        }
    }
}

/// Whether the `i`-th header is the last one with this name.
pub open spec fn last_header(headers: Seq<HeaderPair>, name: Seq<char>, i: int) -> bool {
    header_at(headers, name, i) && forall|j: int| i < j < headers.len() ==> (#[trigger] headers[j]).0 != name
}

/// Whether a byte of a header value is text.
pub open spec fn is_visible(b: u8) -> bool {
    32 <= b < 127 || b == 9
}

/// Whether `part` stands at the place `k` of `bytes`.
pub open spec fn stands_at(bytes: Seq<u8>, part: Seq<char>, k: int) -> bool {
    0 <= k && k + part.len() <= bytes.len() && forall|j: int|
        0 <= j < part.len() ==> (#[trigger] bytes[k + j]) as char == part[j]
}

/// Whether a header value is text.
pub open spec fn is_text_value(bytes: Seq<u8>) -> bool {
    forall|i: int| 0 <= i < bytes.len() ==> is_visible(#[trigger] bytes[i])
}

/// Whether `part` stands anywhere in `bytes`.
pub open spec fn mentions(bytes: Seq<u8>, part: Seq<char>) -> bool {
    exists|k: int| stands_at(bytes, part, k)
}

/// Whether the content type announces a stream of events.
pub open spec fn is_event_stream(content_type: Option<Seq<u8>>) -> bool {
    match content_type {
        Some(bytes) => is_text_value(bytes) && mentions(bytes, "text/event-stream"@),
        None => false,
    }
}

/// Whether a reply is a stream of events, by the value of its content type.
pub fn is_streaming_response(content_type: Option<&Vec<u8>>) -> (r: bool)
    ensures
        r == is_event_stream(match content_type {
            Some(bytes) => Some(bytes@),
            None => None,
        }),
{
    match content_type {
        Some(bytes) => is_text(bytes) && mentions_events(bytes),
        None => false,
    }
}

fn is_text(bytes: &Vec<u8>) -> (r: bool)
    ensures
        r == is_text_value(bytes@),
{
    let mut i: usize = 0;
    while i < bytes.len()
        invariant
            i <= bytes@.len(),
            forall|j: int| 0 <= j < i ==> is_visible(#[trigger] bytes@[j]),
        decreases bytes.len() - i,
    {
        let b: u8 = bytes[i];
        if !((32 <= b && b < 127) || b == 9) {
            assert(!is_visible(bytes@[i as int]));
            return false;
        }
        i += 1;
    }
    true
}

fn mentions_events(bytes: &Vec<u8>) -> (r: bool)
    ensures
        r == mentions(bytes@, "text/event-stream"@),
{
    let part = chars_of("text/event-stream");
    let mut k: usize = 0;
    while k < bytes.len()
        invariant
            k <= bytes@.len(),
            part@ == "text/event-stream"@,
            forall|j: int| 0 <= j < k ==> !stands_at(bytes@, part@, j),
        decreases bytes.len() - k,
    {
        if part_stands_at(bytes, &part, k) {
            return true;
        }
        k += 1;
    }
    proof {
        reveal_strlit("text/event-stream");
        assert forall|j: int| !stands_at(bytes@, part@, j) by {}
    }
    false
}

fn part_stands_at(bytes: &Vec<u8>, part: &Vec<char>, k: usize) -> (r: bool)
    requires
        k <= bytes@.len(),
    ensures
        r == stands_at(bytes@, part@, k as int),
{
    if part.len() > bytes.len() - k {
        return false;
    }
    let mut j: usize = 0;
    while j < part.len()
        invariant
            k <= bytes@.len(),
            j <= part@.len() <= bytes.len() - k,
            forall|m: int| 0 <= m < j ==> (#[trigger] bytes@[k + m]) as char == part@[m],
        decreases part.len() - j,
    {
        if bytes[k + j] as char != part[j] {
            assert(bytes@[k + j as int] as char != part@[j as int]);
            return false;
        }
        j += 1;
    }
    true
}

// ---------------------------------------------------------------------------
// Attempts
// ---------------------------------------------------------------------------

/// How far a request has come.
#[derive(Clone, Copy, Debug)]
pub struct Attempts {
    /// The number of the attempt, from zero on.
    pub attempt: u32,
    pub max_attempts: u32,
    /// The replica that failed in the attempt before.
    pub last_failed: Option<usize>,
}

/// What came back from a replica.
#[derive(Clone, Copy, Debug)]
pub enum Reply {
    /// An answer with this status, as a stream of events or not.
    Answer { status: u16, streaming: bool },
    /// No answer; this status stands for the reason.
    Failure { status: u16 },
}

/// An answer of the router itself.
#[derive(Clone, Copy, Debug)]
pub struct Answer {
    pub status: u16,
    pub text: &'static str,
}

/// What becomes of a request after an attempt.
#[derive(Clone, Copy, Debug)]
pub enum Next {
    /// Another attempt, after a delay.
    Retry,
    /// The answer goes to the client. A stream of events stays on the load of
    /// its replica, which is named here, until it ends.
    Deliver { stream_from: Option<usize> },
    /// The client is told that no replica answered.
    GiveUp { answer: Answer },
}

impl Attempts {
    pub open spec fn wf(&self) -> bool {
        self.attempt < self.max_attempts
    }

    /// Whether another attempt is left.
    pub open spec fn more(&self) -> bool {
        self.attempt + 1 < self.max_attempts
    }

    /// The next attempt, if a replica's reply leads to one.
    pub open spec fn next(self, worker: usize, reply: Reply) -> Option<Attempts> {
        if self.more() && reply.worth_retrying() {
            Some(
                Attempts {
                    attempt: (self.attempt + 1) as u32,
                    max_attempts: self.max_attempts,
                    last_failed: Some(worker),
                },
            )
        } else {
            None
        }
    }

    /// The first attempt of a request.
    pub fn new(config: &ProxyConfig) -> (r: Self)
        requires
            config.max_retries < u32::MAX,
        ensures
            r.wf(),
            r.attempt == 0,
            r.max_attempts == config.max_retries + 1,
            r.last_failed is None,
    {
        Attempts { attempt: 0, max_attempts: config.max_retries + 1, last_failed: None }
    }
}

impl Reply {
    /// Whether the replica did its work.
    pub open spec fn success(self) -> bool {
        self matches Reply::Answer { status, streaming } && counts_as_success(status)
    }

    /// Whether another attempt might help.
    pub open spec fn worth_retrying(self) -> bool {
        match self {
            Reply::Answer { status, streaming } => retryable(status),
            Reply::Failure { status } => true,
        }
    }

    /// Whether the reply is handed over while it still comes in.
    pub open spec fn is_stream(self) -> bool {
        self matches Reply::Answer { status, streaming } && streaming
    }
}

/// A replica after an attempt that it took part in: the outcome is noted, and
/// the request is off its load unless a stream goes on.
pub open spec fn after_attempt(w: WorkerView, reply: Reply, streams_on: bool, now: nat) -> WorkerView {
    let noted = w.after_outcome(reply.success(), now);
    if streams_on {
        noted
    } else {
        noted.decremented()
    }
}

/// Starts an attempt: selects a replica other than the one that just failed,
/// by what is known of the text, and adds the request to its load. If no
/// replica may get the request, the client is told so.
pub fn begin_attempt(
    attempts: &Attempts,
    pool: &mut Pool,
    config: &CacheConfig,
    found: &PrefixMatch,
    now_ns: u64,
) -> (r: Result<(Route, LoadGuard), Answer>)
    requires
        old(pool).wf(),
    ensures
        final(pool).wf(),
        decided(
            old(pool)@,
            *config,
            attempts.last_failed,
            now_ns as nat,
            found@,
            match r {
                Ok((route, guard)) => Some(route),
                Err(answer) => None,
            },
        ),
        r is Err <==> forall|i: int| !usable(old(pool)@, attempts.last_failed, now_ns as nat, i),
        r is Err <==> nobody(old(pool)@, attempts.last_failed, now_ns as nat),
        r matches Err(answer) ==> {
            &&& answer.status == 503
            &&& answer.text@ == "No available workers"@
            &&& final(pool)@ == old(pool)@
        },
        r matches Ok((route, guard)) ==> {
            let w = route.worker as int;
            &&& guard.belongs_to(old(pool)@[w])
            &&& guard.worker_slot() == route.worker
            &&& final(pool)@ == old(pool)@.update(w, old(pool)@[w].incremented())
        },
{
    match select(pool, config, attempts.last_failed, now_ns, found) {
        Some(route) => {
            let guard = pool.acquire(route.worker);
            Ok((route, guard))
        },
        None => Err(Answer { status: 503, text: "No available workers" }),
    }
}

/// Ends an attempt with what came back from the replica of the guard.
pub fn end_attempt(
    attempts: &mut Attempts,
    pool: &mut Pool,
    guard: LoadGuard,
    reply: Reply,
    now_ns: u64,
) -> (r: Next)
    requires
        old(attempts).wf(),
        old(pool).wf(),
        guard.worker_slot() < old(pool)@.len(),
        guard.belongs_to(old(pool)@[guard.worker_slot() as int]),
    ensures
        final(pool).wf(),
        final(attempts).wf(),
        r is Retry <==> old(attempts).next(guard.worker_slot(), reply) is Some,
        r is GiveUp <==> reply is Failure && !old(attempts).more(),
        r matches Next::GiveUp { answer } ==> reply == (Reply::Failure { status: answer.status }) && answer.text@
            == "Backend unavailable"@,
        r matches Next::Deliver { stream_from } ==> match stream_from {
            Some(i) => reply.is_stream() && i == guard.worker_slot(),
            None => !reply.is_stream(),
        },
        *final(attempts) == if r is Retry {
            old(attempts).next(guard.worker_slot(), reply)->0
        } else {
            *old(attempts)
        },
        final(pool)@ == old(pool)@.update(
            guard.worker_slot() as int,
            after_attempt(
                old(pool)@[guard.worker_slot() as int],
                reply,
                r is Deliver && reply.is_stream(),
                now_ns as nat,
            ),
        ),
{
    let worker = guard.slot();
    let ghost before = pool@;
    let ghost w = worker as int;
    let more = attempts.attempt + 1 < attempts.max_attempts;
    let (success, retry, streaming) = match reply {
        Reply::Answer { status, streaming } => (
            (200 <= status && status <= 299) || (400 <= status && status <= 499),
            is_retryable_status(status),
            streaming,
        ),
        Reply::Failure { .. } => (false, true, false),
    };
    pool.record_outcome(worker, success, now_ns);
    if retry && more {
        pool.release(guard);
        metrics::record_retry(attempts.attempt);
        attempts.last_failed = Some(worker);
        attempts.attempt = attempts.attempt + 1;
        assert(pool@ =~= before.update(w, after_attempt(before[w], reply, false, now_ns as nat)));
        return Next::Retry;
    }
    match reply {
        Reply::Answer { .. } => {
            if streaming {
                assert(pool@ =~= before.update(w, after_attempt(before[w], reply, true, now_ns as nat)));
                Next::Deliver { stream_from: Some(guard.disarm()) }
            } else {
                pool.release(guard);
                assert(pool@ =~= before.update(w, after_attempt(before[w], reply, false, now_ns as nat)));
                Next::Deliver { stream_from: None }
            }
        },
        Reply::Failure { status } => {
            pool.release(guard);
            assert(pool@ =~= before.update(w, after_attempt(before[w], reply, false, now_ns as nat)));
            Next::GiveUp { answer: Answer { status, text: "Backend unavailable" } }
        },
    }
}

/// Records where a text was sent, if the answer of the replica is delivered.
pub fn record_delivery(next: &Next, tree: &mut Tree, request_text: &str, worker_url: &str)
    requires
        old(tree).wf(),
        old(tree).now() < u64::MAX,
    ensures
        final(tree).wf(),
        if next is Deliver {
            recorded_text(old(tree), final(tree), request_text@, worker_url@)
        } else {
            *final(tree) == *old(tree)
        },
{
    if let Next::Deliver { .. } = next {
        record_text(tree, request_text, worker_url);
    }
}

/// What the header `x-routed-peer` of an answer says, if there is to be one:
/// the replica that the request went to.
pub fn routed_peer(config: &ProxyConfig, worker_url: &str) -> (r: Option<String>)
    ensures
        r is Some <==> config.add_routed_peer_header,
        r matches Some(peer) ==> peer@ == worker_url@,
{
    if config.add_routed_peer_header {
        Some(worker_url.to_owned())
    } else {
        None
    }
}

// ---------------------------------------------------------------------------
// Laws
// ---------------------------------------------------------------------------

/// A request that was not handed over as a stream leaves no load behind.
pub proof fn lemma_no_load_left(w: WorkerView, reply: Reply, now: nat)
    requires
        w.load < usize::MAX,
    ensures
        after_attempt(w.incremented(), reply, false, now).load == w.load,
        after_attempt(w.incremented(), reply, true, now).load == w.load + 1,
        after_attempt(w.incremented(), reply, true, now).decremented().load == w.load,
{
}

/// A replica that is selected has room for the request: its load stays within
/// its cap.
pub proof fn lemma_cap_respected(w: WorkerView, now: nat)
    requires
        w.available(now),
        w.max_load <= usize::MAX,
    ensures
        w.incremented().load == w.load + 1,
        w.incremented().load <= w.max_load,
{
}

/// A status that the client is to blame for is never held against a replica,
/// and a success is never retried.
pub proof fn lemma_statuses(status: u16)
    ensures
        400 <= status <= 499 ==> counts_as_success(status),
        200 <= status <= 299 ==> counts_as_success(status) && !retryable(status),
        status >= 500 ==> !counts_as_success(status),
{
}

/// A retry avoids the replica that just failed.
pub proof fn lemma_retry_avoids_failed(attempts: Attempts, worker: usize, pool: Seq<WorkerView>, now: nat, i: int)
    requires
        attempts.last_failed == Some(worker),
        usable(pool, attempts.last_failed, now, i),
        pool.len() <= usize::MAX,
    ensures
        i != worker,
{
}

/// How far a request has come after these replies, unless it has ended.
pub open spec fn after_replies(first: Attempts, replies: Seq<(usize, Reply)>) -> Option<Attempts>
    decreases replies.len(),
{
    if replies.len() == 0 {
        Some(first)
    } else {
        match after_replies(first, replies.drop_last()) {
            Some(attempts) => attempts.next(replies.last().0, replies.last().1),
            None => None,
        }
    }
}

/// A request ends with the first reply that is not worth retrying, and at the
/// latest with as many attempts as there are retries and one more.
pub proof fn lemma_attempts_are_bounded(config: ProxyConfig, first: Attempts, replies: Seq<(usize, Reply)>)
    requires
        first.attempt == 0,
        first.max_attempts == config.max_retries + 1,
    ensures
        after_replies(first, replies) is Some <==> replies.len() <= config.max_retries && forall|i: int|
            0 <= i < replies.len() ==> (#[trigger] replies[i]).1.worth_retrying(),
        after_replies(first, replies) matches Some(attempts) ==> attempts.attempt == replies.len()
            && attempts.max_attempts == first.max_attempts && (replies.len() > 0 ==> attempts.last_failed == Some(
            replies.last().0,
        )),
    decreases replies.len(),
{
    if replies.len() > 0 {
        let head = replies.drop_last();
        lemma_attempts_are_bounded(config, first, head);
        assert forall|i: int| 0 <= i < head.len() implies head[i] == #[trigger] replies[i] by {}
        if after_replies(first, replies) is Some {
            assert forall|i: int| 0 <= i < replies.len() implies (#[trigger] replies[i]).1.worth_retrying() by {
                if i < head.len() {
                    assert(head[i].1.worth_retrying());
                }
            }
        }
        if forall|i: int| 0 <= i < replies.len() ==> (#[trigger] replies[i]).1.worth_retrying() {
            assert forall|i: int| 0 <= i < head.len() implies (#[trigger] head[i]).1.worth_retrying() by {
                assert(replies[i].1.worth_retrying());
            }
            assert(replies[replies.len() - 1].1.worth_retrying());
        }
    }
}

/// The statuses that are retried: a timeout or too many requests on the side of
/// the client, and an error, a bad gateway, an overload or a timeout on the side
/// of the replica. No other one is.
pub proof fn lemma_retried_statuses(status: u16, r: bool)
    requires
        call_ensures(is_retryable_status, (status,), r),
    ensures
        r <==> seq![408u16, 429, 500, 502, 503, 504].contains(status),
        status < 400 || status > 504 ==> !r,
{
    let all = seq![408u16, 429, 500, 502, 503, 504];
    assert(all[0] == 408 && all[1] == 429 && all[2] == 500 && all[3] == 502 && all[4] == 503 && all[5] == 504);
}

/// A replica that does not answer in time is a gateway timeout, one that cannot
/// be reached a bad gateway; both are worth another attempt.
pub proof fn lemma_transport(timed_out: bool, r: u16, again: bool)
    requires
        call_ensures(transport_status, (timed_out,), r),
        call_ensures(is_retryable_status, (r,), again),
    ensures
        timed_out ==> r == 504,
        !timed_out ==> r == 502,
        again,
{
}

/// A delay is as computed up to the largest one, and that one beyond.
pub proof fn lemma_backoff_capped(config: &ProxyConfig, base_ms: u64, r: u64)
    requires
        call_ensures(capped_backoff, (config, base_ms), r),
    ensures
        r <= base_ms,
        r <= config.max_backoff_ms,
        r == base_ms || r == config.max_backoff_ms,
{
}

/// A request is forwarded to its own path at the address of the replica.
pub proof fn lemma_forward_address(worker_url: &str, path: &str, r: String)
    requires
        call_ensures(forward_url, (worker_url, path), r),
    ensures
        r@.len() == worker_url@.len() + path@.len(),
        r@.take(worker_url@.len() as int) == worker_url@,
        r@.skip(worker_url@.len() as int) == path@,
{
    assert(r@.take(worker_url@.len() as int) =~= worker_url@);
    assert(r@.skip(worker_url@.len() as int) =~= path@);
}

/// The header that names the replica is there exactly if it is asked for.
pub proof fn lemma_routed_peer(config: &ProxyConfig, worker_url: &str, r: Option<String>)
    requires
        call_ensures(routed_peer, (config, worker_url), r),
    ensures
        !config.add_routed_peer_header ==> r is None,
        config.add_routed_peer_header ==> r is Some && r->0@ == worker_url@,
{
}

/// What is forwarded of the headers of a request, name by name: all but the
/// three that the forwarding sets itself, each name once and with the value that
/// it had last.
pub proof fn lemma_forwarded_headers(incoming: Vec<Header>, r: Vec<Header>, i: int)
    requires
        call_ensures(build_forward_headers, (incoming,), r),
        0 <= i < incoming@.len(),
    ensures
        forall|a: int, b: int| 0 <= a < b < r@.len() ==> (#[trigger] r@[a]).name@ != (#[trigger] r@[b]).name@,
        forall|a: int|
            0 <= a < r@.len() ==> (#[trigger] r@[a]).name@ != "host"@ && r@[a].name@ != "content-length"@ && r@[a].name@
                != "transfer-encoding"@,
        incoming@[i].name@ != "host"@ && incoming@[i].name@ != "content-length"@ && incoming@[i].name@
            != "transfer-encoding"@ && (forall|j: int|
            i < j < incoming@.len() ==> (#[trigger] incoming@[j]).name@ != incoming@[i].name@) ==> exists|a: int|
            0 <= a < r@.len() && (#[trigger] r@[a]).name@ == incoming@[i].name@ && r@[a].value@ == incoming@[i].value@,
        forall|a: int|
            0 <= a < r@.len() ==> exists|j: int|
                0 <= j < incoming@.len() && (#[trigger] incoming@[j]).name@ == (#[trigger] r@[a]).name@
                    && incoming@[j].value@ == r@[a].value@,
{
    let all = header_views(incoming@);
    let out = header_views(r@);
    assert(out == forwarded(all));
    lemma_forwarded_distinct(all);
    assert forall|a: int, b: int| 0 <= a < b < r@.len() implies (#[trigger] r@[a]).name@ != (
    #[trigger] r@[b]).name@ by {
        assert(out[a].0 != out[b].0);
    }
    assert forall|a: int| 0 <= a < r@.len() implies (#[trigger] r@[a]).name@ != "host"@ && r@[a].name@
        != "content-length"@ && r@[a].name@ != "transfer-encoding"@ && exists|j: int|
        0 <= j < incoming@.len() && (#[trigger] incoming@[j]).name@ == r@[a].name@ && incoming@[j].value@
            == r@[a].value@ by {
        let pair = out[a];
        assert(out.contains(pair));
        lemma_forwarded(all, pair.0, pair.1);
        let j = choose|j: int| last_header(all, pair.0, j) && all[j].1 == pair.1;
        assert(incoming@[j].name@ == r@[a].name@ && incoming@[j].value@ == r@[a].value@);
    }
    let name = incoming@[i].name@;
    let value = incoming@[i].value@;
    if name != "host"@ && name != "content-length"@ && name != "transfer-encoding"@ && forall|j: int|
        i < j < incoming@.len() ==> (#[trigger] incoming@[j]).name@ != name {
        assert(all[i] == (name, value));
        assert(last_header(all, name, i)) by {
            assert forall|j: int| i < j < all.len() implies (#[trigger] all[j]).0 != name by {
                assert(incoming@[j].name@ != name);
            }
        }
        lemma_forwarded(all, name, value);
        let a = choose|a: int| 0 <= a < out.len() && out[a] == (name, value);
        assert(r@[a].name@ == name && r@[a].value@ == value);
    }
}

/// A reply is a stream of events exactly if its content type is text and says so
/// anywhere.
pub proof fn lemma_stream_announced(content_type: Option<&Vec<u8>>, r: bool)
    requires
        call_ensures(is_streaming_response, (content_type,), r),
    ensures
        content_type is None ==> !r,
        content_type matches Some(bytes) ==> (r <==> (forall|i: int|
            0 <= i < bytes@.len() ==> 32 <= #[trigger] bytes@[i] <= 126 || bytes@[i] == 9) && says_event_stream(bytes@)),
{
    if content_type is Some {
        let bytes = content_type->0@;
        reveal_strlit("text/event-stream");
        assert("text/event-stream"@.len() == 17);
        if mentions(bytes, "text/event-stream"@) {
            let k = choose|k: int| stands_at(bytes, "text/event-stream"@, k);
            assert(event_stream_at(bytes, k)) by {
                assert forall|j: int| 0 <= j < 17 implies (#[trigger] bytes[k + j]) as char == "text/event-stream"@[j] by {}
            }
        }
        if says_event_stream(bytes) {
            let k = choose|k: int| event_stream_at(bytes, k);
            assert(stands_at(bytes, "text/event-stream"@, k));
        }
        if forall|i: int| 0 <= i < bytes.len() ==> 32 <= #[trigger] bytes[i] <= 126 || bytes[i] == 9 {
            assert forall|i: int| 0 <= i < bytes.len() implies is_visible(#[trigger] bytes[i]) by {}
        }
        if is_text_value(bytes) {
            assert forall|i: int| 0 <= i < bytes.len() implies 32 <= #[trigger] bytes[i] <= 126 || bytes[i] == 9 by {
                assert(is_visible(bytes[i]));
            }
        }
    }
}

/// Whether the seventeen bytes from `k` on spell the content type of a stream.
pub open spec fn event_stream_at(bytes: Seq<u8>, k: int) -> bool {
    &&& 0 <= k
    &&& k + 17 <= bytes.len()
    &&& forall|j: int| 0 <= j < 17 ==> (#[trigger] bytes[k + j]) as char == "text/event-stream"@[j]
}

/// Whether the content type of a stream is spelled anywhere.
pub open spec fn says_event_stream(bytes: Seq<u8>) -> bool {
    exists|k: int| event_stream_at(bytes, k)
}

/// The first attempt: nothing has failed yet, and as many attempts are left as
/// there are retries.
pub proof fn lemma_first_attempt(config: &ProxyConfig, r: Attempts)
    requires
        call_ensures(Attempts::new, (config,), r),
    ensures
        r.attempt == 0,
        r.max_attempts == config.max_retries + 1,
        r.last_failed is None,
{
}

/// Whether a reply is worth another attempt.
pub open spec fn again(reply: Reply) -> bool {
    match reply {
        Reply::Failure { status } => true,
        Reply::Answer { status, streaming } => seq![408u16, 429, 500, 502, 503, 504].contains(status),
    }
}

/// Whether a reply speaks for the replica: an answer that is a success, or that
/// the client is to blame for. No answer never does.
pub open spec fn speaks_for(reply: Reply) -> bool {
    match reply {
        Reply::Failure { status } => false,
        Reply::Answer { status, streaming } => status / 100 == 2 || status / 100 == 4,
    }
}

/// What an attempt leaves behind on its replica: the breaker took note of a
/// success if the reply speaks for the replica, and of a failure otherwise; the
/// request is off the load, unless its answer is a stream that goes on. The
/// other replicas are as they were.
pub proof fn lemma_attempt_noted(
    attempts: &mut Attempts,
    pool: &mut Pool,
    guard: LoadGuard,
    reply: Reply,
    now_ns: u64,
    r: Next,
    k: int,
)
    requires
        guard.worker_slot() < old(pool)@.len(),
        0 <= k < old(pool)@.len(),
        call_ensures(end_attempt, (attempts, pool, guard, reply, now_ns), r),
    ensures
        final(pool)@.len() == old(pool)@.len(),
        k != guard.worker_slot() ==> final(pool)@[k] == old(pool)@[k],
        k == guard.worker_slot() ==> {
            &&& final(pool)@[k].breaker == old(pool)@[k].breaker.outcome(speaks_for(reply), now_ns as nat)
            &&& final(pool)@[k].load == if (r matches Next::Deliver { stream_from } && stream_from is Some)
                || old(pool)@[k].load == 0 {
                old(pool)@[k].load as int
            } else {
                old(pool)@[k].load - 1
            }
            &&& final(pool)@[k] == (WorkerView {
                breaker: final(pool)@[k].breaker,
                load: final(pool)@[k].load,
                ..old(pool)@[k]
            })
        },
{
}

/// What becomes of a request after an attempt: another attempt, which avoids the
/// replica of this one, if the reply is worth it and attempts are left;
/// otherwise the answer is delivered, or, without one, the client is told.
pub proof fn lemma_attempt_leads_on(
    attempts: &mut Attempts,
    pool: &mut Pool,
    guard: LoadGuard,
    reply: Reply,
    now_ns: u64,
    r: Next,
)
    requires
        call_ensures(end_attempt, (attempts, pool, guard, reply, now_ns), r),
    ensures
        r is Retry <==> again(reply) && old(attempts).attempt + 1 < old(attempts).max_attempts,
        r is Retry ==> {
            &&& final(attempts).attempt == old(attempts).attempt + 1
            &&& final(attempts).max_attempts == old(attempts).max_attempts
            &&& final(attempts).last_failed == Some(guard.worker_slot())
        },
        !(r is Retry) ==> *final(attempts) == *old(attempts),
        !(r is Retry) && reply is Answer ==> r is Deliver,
        !(r is Retry) && reply is Failure ==> r is GiveUp,
        r matches Next::GiveUp { answer } ==> reply == (Reply::Failure { status: answer.status }) && answer.text@
            == "Backend unavailable"@,
        r matches Next::Deliver { stream_from } ==> reply is Answer && (if reply->streaming {
            stream_from == Some(guard.worker_slot())
        } else {
            stream_from is None
        }),
{
    let all = seq![408u16, 429, 500, 502, 503, 504];
    assert(all[0] == 408 && all[1] == 429 && all[2] == 500 && all[3] == 502 && all[4] == 503 && all[5] == 504);
}

/// An attempt starts with a candidate other than the replica that just failed,
/// chosen by the rules, and counts on its load; or, if there is none, the client
/// is told so and nothing changes.
pub proof fn lemma_attempt_starts(
    attempts: &Attempts,
    pool: &mut Pool,
    config: &CacheConfig,
    found: &PrefixMatch,
    now_ns: u64,
    r: Result<(Route, LoadGuard), Answer>,
    i: int,
    k: int,
)
    requires
        old(pool).wf(),
        call_ensures(begin_attempt, (attempts, pool, config, found, now_ns), r),
    ensures
        r is Err <==> forall|j: int| !candidate(old(pool)@, attempts.last_failed, now_ns as nat, j),
        r matches Err(answer) ==> answer.status == 503 && answer.text@ == "No available workers"@ && final(pool)@ == old(
            pool,
        )@,
        r matches Ok((route, guard)) ==> {
            &&& routed_by_rules(
                old(pool)@,
                *config,
                attempts.last_failed,
                now_ns as nat,
                found@,
                i,
                Some(route),
            )
            &&& attempts.last_failed != Some(route.worker)
            &&& guard.worker_slot() == route.worker
            &&& guard.worker_url() == old(pool)@[route.worker as int].url
            &&& final(pool)@.len() == old(pool)@.len()
            &&& 0 <= k < old(pool)@.len() && k != route.worker ==> final(pool)@[k] == old(pool)@[k]
            &&& k == route.worker && old(pool)@[k].load < usize::MAX ==> final(pool)@[k].load == old(pool)@[k].load + 1
            &&& k == route.worker ==> final(pool)@[k] == (WorkerView { load: final(pool)@[k].load, ..old(pool)@[k] })
        },
{
    let before = old(pool)@;
    let now = now_ns as nat;
    old(pool).lemma_places();
    lemma_candidates(before, attempts.last_failed, now);
    if r is Err {
        assert forall|j: int| !candidate(before, attempts.last_failed, now, j) by {
            assert(!usable(before, attempts.last_failed, now, j));
        }
    } else {
        let route = r->Ok_0.0;
        lemma_decided_by_rules(before, *config, attempts.last_failed, now, found@, Some(route), i);
        assert(candidate(before, attempts.last_failed, now, route.worker as int));
    }
}

/// A text is recorded for the replica whose answer is delivered, and for no
/// other attempt.
pub proof fn lemma_delivery_recorded(next: &Next, tree: &mut Tree, text: &str, url: &str)
    requires
        old(tree).wf(),
        final(tree).wf(),
        call_ensures(record_delivery, (next, tree, text, url), ()),
    ensures
        !(next is Deliver) || text@.len() == 0 ==> *final(tree) == *old(tree),
        next is Deliver && text@.len() > 0 ==> final(tree).matched(text@) == text@.len() && final(tree).owner(text@)
            == Some(url@),
{
    if next is Deliver && text@.len() > 0 {
        final(tree).lemma_recorded_matches(&*old(tree), text@, url@);
        assert(text@.take(text@.len() as int) =~= text@);
    }
}

/// A replica after requests that did not reach it, at these moments.
pub open spec fn after_refusals(w: WorkerView, status: u16, moments: Seq<nat>) -> WorkerView
    decreases moments.len(),
{
    if moments.len() == 0 {
        w
    } else {
        after_attempt(
            after_refusals(w, status, moments.drop_last()).incremented(),
            Reply::Failure { status },
            false,
            moments.last(),
        )
    }
}

/// A replica that cannot be reached is given up: after as many connections in a
/// row that failed as the threshold of its breaker says, it gets no request
/// until the time of the breaker has passed. Its load is what it was.
pub proof fn lemma_dead_replica_is_given_up(w: WorkerView, status: u16, moments: Seq<nat>, now: nat)
    requires
        w.breaker.state is Closed,
        w.breaker.failures == 0,
        w.load < usize::MAX,
        moments.len() == w.breaker.config.failure_threshold,
        moments.len() > 0,
        now < moments.last() + w.breaker.config.timeout_secs * 1_000_000_000,
    ensures
        !admits(after_refusals(w, status, moments), now),
        !after_refusals(w, status, moments).available(now),
        after_refusals(w, status, moments).breaker.state is Open,
        after_refusals(w, status, moments).load == w.load,
{
    lemma_refusals(w, status, moments);
    lemma_failures_in_a_row_open(w.breaker, moments, now);
}

proof fn lemma_refusals(w: WorkerView, status: u16, moments: Seq<nat>)
    requires
        w.load < usize::MAX,
    ensures
        after_refusals(w, status, moments) == (WorkerView {
            breaker: after_outcomes_at(w.breaker, false, moments),
            ..w
        }),
    decreases moments.len(),
{
    if moments.len() > 0 {
        lemma_refusals(w, status, moments.drop_last());
    }
}

/// One header more: one that the forwarding sets itself changes nothing; one
/// whose name is there already gives it its value, in its place; any other one
/// comes last.
pub proof fn lemma_one_header_more(
    incoming: Vec<Header>,
    more: Vec<Header>,
    header: Header,
    r: Vec<Header>,
    s: Vec<Header>,
    i: int,
)
    requires
        more@ == incoming@.push(header),
        call_ensures(build_forward_headers, (incoming,), r),
        call_ensures(build_forward_headers, (more,), s),
    ensures
        incoming@.len() == 0 ==> r@.len() == 0,
        header.name@ == "host"@ || header.name@ == "content-length"@ || header.name@ == "transfer-encoding"@
            ==> s@.len() == r@.len(),
        0 <= i < r@.len() ==> i < s@.len() && s@[i].name@ == r@[i].name@,
        0 <= i < r@.len() && r@[i].name@ != header.name@ ==> s@[i].value@ == r@[i].value@,
        0 <= i < r@.len() && r@[i].name@ == header.name@ ==> s@.len() == r@.len() && s@[i].value@ == header.value@,
        header.name@ != "host"@ && header.name@ != "content-length"@ && header.name@ != "transfer-encoding"@ && (
        forall|k: int| 0 <= k < r@.len() ==> (#[trigger] r@[k]).name@ != header.name@) ==> s@.len() == r@.len() + 1
            && s@[r@.len() as int].name@ == header.name@ && s@[r@.len() as int].value@ == header.value@,
{
    let (a, b) = (header_views(incoming@), header_views(more@));
    let (out, all) = (header_views(r@), header_views(s@));
    let name = header.name@;
    assert(b.drop_last() =~= a);
    assert(b.last() == (name, header.value@));
    assert(out.len() == r@.len() && all.len() == s@.len());
    assert forall|k: int| 0 <= k < r@.len() implies out[k] == ((#[trigger] r@[k]).name@, r@[k].value@) by {}
    assert forall|k: int| 0 <= k < s@.len() implies all[k] == ((#[trigger] s@[k]).name@, s@[k].value@) by {}
    if stripped(name) {
        assert(all == out);
        if 0 <= i < r@.len() {
            assert(out[i] == all[i]);
            assert(out.contains((r@[i].name@, r@[i].value@)));
            lemma_forwarded(a, r@[i].name@, r@[i].value@);
        }
    } else if exists|k: int| header_at(out, name, k) {
        let k = choose|k: int| header_at(out, name, k);
        assert(header_at(out, name, k));
        assert(r@[k].name@ == name);
        assert(all == out.update(k, (name, header.value@)));
        if 0 <= i < r@.len() {
            assert(s@[i].name@ == all[i].0 && s@[i].value@ == all[i].1);
            lemma_forwarded_distinct(a);
            if r@[i].name@ == name {
                if i < k {
                    assert(out[i].0 != out[k].0);
                } else if k < i {
                    assert(out[k].0 != out[i].0);
                }
            }
        }
    } else {
        assert(all == out.push((name, header.value@)));
        if 0 <= i < r@.len() {
            assert(!header_at(out, name, i));
            assert(s@[i].name@ == all[i].0 && s@[i].value@ == all[i].1);
        }
    }
}

/// What a delivery records is what recording the text for its replica does.
pub proof fn lemma_delivery_as_recorded(
    next: &Next,
    tree: &mut Tree,
    recorded: &mut Tree,
    text: &str,
    url: &str,
    p: Seq<char>,
    t: Seq<char>,
)
    requires
        *old(recorded) == *old(tree),
        next is Deliver,
        call_ensures(record_delivery, (next, tree, text, url), ()),
        call_ensures(record_text, (recorded, text, url), ()),
    ensures
        final(tree).stamp(p, t) == final(recorded).stamp(p, t),
        final(tree).tenant_views() == final(recorded).tenant_views(),
        final(tree).ends(p) == final(recorded).ends(p),
{
}

} // verus!
