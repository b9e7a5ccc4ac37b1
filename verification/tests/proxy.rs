use cart::circuit_breaker::{CircuitBreakerConfig, CircuitState};
use cart::config::{AppConfig, HealthConfig, ProxyConfig, WorkerEntry};
use cart::proxy::{
    begin_attempt, build_forward_headers, capped_backoff, end_attempt, forward_url, is_retryable_status,
    is_streaming_response, record_delivery, routed_peer, transport_status, Answer, Attempts, Header, Next, Reply,
};
use cart::routing::{CacheRouter, Route};
use cart::worker::{LoadGuard, Worker};

fn app_config() -> AppConfig {
    AppConfig::with_workers(vec![WorkerEntry { url: "http://w0".to_string(), max_load: 20, load_penalty: 0 }])
}

fn proxy_config(max_retries: u32) -> ProxyConfig {
    ProxyConfig { max_retries, ..app_config().proxy_config() }
}

fn router(n: usize) -> CacheRouter {
    let workers = (0..n)
        .map(|i| {
            let health = HealthConfig {
                endpoint: "/".to_string(),
                interval_secs: 1,
                failure_threshold: 1,
                success_threshold: 1,
            };
            Worker::new(format!("http://w{}", i), 20, 0, health, CircuitBreakerConfig::default())
        })
        .collect();
    CacheRouter::new(workers, app_config().cache_config())
}

#[test]
fn retryable_statuses() {
    let retryable: Vec<u16> = (100..600).filter(|s| is_retryable_status(*s)).collect();
    assert_eq!(retryable, vec![408, 429, 500, 502, 503, 504]);
}

#[test]
fn statuses_of_the_transport() {
    assert_eq!(transport_status(true), 504);
    assert_eq!(transport_status(false), 502);
}

#[test]
fn a_backoff_is_capped() {
    let config = proxy_config(1);
    assert_eq!(capped_backoff(&config, 100), 100);
    assert_eq!(capped_backoff(&config, 4999), 4999);
    assert_eq!(capped_backoff(&config, 5000), 5000);
    assert_eq!(capped_backoff(&config, u64::MAX), 5000);
}

#[test]
fn requests_are_forwarded_to_the_same_path() {
    assert_eq!(forward_url("http://w0:8050", "/v1/models"), "http://w0:8050/v1/models");
    assert_eq!(forward_url("http://w0", "/x?a=1&b"), "http://w0/x?a=1&b");
}

fn header(name: &str, value: &str) -> Header {
    Header { name: name.to_string(), value: value.as_bytes().to_vec() }
}

fn forward(headers: Vec<Header>) -> Vec<(String, Vec<u8>)> {
    build_forward_headers(headers).into_iter().map(|h| (h.name, h.value)).collect()
}

#[test]
fn some_headers_are_not_forwarded() {
    let sent = forward(vec![
        header("host", "cart"),
        header("authorization", "Bearer x"),
        header("content-length", "12"),
        header("transfer-encoding", "chunked"),
        header("content-type", "application/json"),
    ]);
    assert_eq!(
        sent,
        vec![
            ("authorization".to_string(), b"Bearer x".to_vec()),
            ("content-type".to_string(), b"application/json".to_vec()),
        ]
    );
}

#[test]
fn of_repeated_headers_the_last_value_is_forwarded() {
    let sent = forward(vec![header("x-a", "1"), header("x-b", "2"), header("x-a", "3")]);
    assert_eq!(sent, vec![("x-a".to_string(), b"3".to_vec()), ("x-b".to_string(), b"2".to_vec())]);
}

fn streaming(content_type: &[u8]) -> bool {
    is_streaming_response(Some(&content_type.to_vec()))
}

#[test]
fn streams_are_told_by_their_content_type() {
    assert!(streaming(b"text/event-stream"));
    assert!(streaming(b"text/event-stream; charset=utf-8"));
    assert!(streaming(b"multipart/mixed,\ttext/event-stream"));
    assert!(!streaming(b"text/event-strea"));
    assert!(!streaming(b"application/json"));
    assert!(!streaming(b"Text/Event-Stream"));
    assert!(!streaming(b""));
    assert!(!streaming("text/event-stream; x=ü".as_bytes()));
    assert!(!streaming(b"text/event-stream\x7f"));
    assert!(!is_streaming_response(None));
}

fn begin(attempts: &Attempts, r: &mut CacheRouter, text: &str) -> Result<(Route, LoadGuard), Answer> {
    let found = r.tree.prefix_match_with_counts(text);
    begin_attempt(attempts, &mut r.pool, &r.config, &found, 0)
}

fn end(attempts: &mut Attempts, r: &mut CacheRouter, guard: LoadGuard, reply: Reply, text: &str) -> Next {
    assert!(r.pool.owns(&guard));
    let url = r.workers()[guard.slot()].url().to_string();
    let next = end_attempt(attempts, &mut r.pool, guard, reply, 0);
    record_delivery(&next, &mut r.tree, text, &url);
    next
}

#[test]
fn no_replica_ends_a_request() {
    let attempts = Attempts::new(&proxy_config(1));
    let answer = begin(&attempts, &mut router(0), "hello").err().unwrap();
    assert_eq!((answer.status, answer.text), (503, "No available workers"));

    let mut r = router(2);
    for i in 0..2 {
        r.pool.check_health(i, false);
    }
    let answer = begin(&attempts, &mut r, "hello").err().unwrap();
    assert_eq!((answer.status, answer.text), (503, "No available workers"));
    assert_eq!((r.workers()[0].load(), r.workers()[1].load()), (0, 0));
}

#[test]
fn an_answer_is_delivered_and_recorded() {
    let mut r = router(2);
    let mut attempts = Attempts::new(&proxy_config(1));
    assert_eq!((attempts.attempt, attempts.max_attempts), (0, 2));
    let (route, guard) = begin(&attempts, &mut r, "hello").unwrap();
    assert_eq!(r.workers()[route.worker].load(), 1);
    assert_eq!(guard.slot(), route.worker);
    let next = end(&mut attempts, &mut r, guard, Reply::Answer { status: 200, streaming: false }, "hello");
    assert!(matches!(next, Next::Deliver { stream_from: None }));
    assert_eq!(r.workers()[route.worker].load(), 0);
    assert_eq!(r.select_worker("hello", None, 0), Some(route.worker));
}

#[test]
fn a_stream_keeps_its_load() {
    let mut r = router(1);
    let mut attempts = Attempts::new(&proxy_config(1));
    let (_, guard) = begin(&attempts, &mut r, "hello").unwrap();
    let reply = Reply::Answer { status: 200, streaming: true };
    match end(&mut attempts, &mut r, guard, reply, "hello") {
        Next::Deliver { stream_from: Some(worker) } => {
            assert_eq!(r.workers()[0].load(), 1);
            r.pool.end_stream(worker);
            assert_eq!(r.workers()[0].load(), 0);
        }
        other => panic!("unexpected: {:?}", other),
    }
}

#[test]
fn a_retry_avoids_the_replica_that_failed() {
    let mut r = router(2);
    let mut attempts = Attempts::new(&proxy_config(1));
    let (first, guard) = begin(&attempts, &mut r, "hello").unwrap();
    let reply = Reply::Answer { status: 503, streaming: false };
    let next = end(&mut attempts, &mut r, guard, reply, "hello");
    assert!(matches!(next, Next::Retry));
    assert_eq!(attempts.attempt, 1);
    assert_eq!(attempts.last_failed, Some(first.worker));
    assert_eq!(r.workers()[first.worker].load(), 0);
    // Nothing was recorded for the replica that failed.
    assert_eq!(r.tree.prefix_match_with_counts("hello").matched_char_count, 0);
    let (second, guard) = begin(&attempts, &mut r, "hello").unwrap();
    assert_ne!(second.worker, first.worker);
    // The last answer is delivered, whatever its status.
    let next = end(&mut attempts, &mut r, guard, reply, "hello");
    assert!(matches!(next, Next::Deliver { stream_from: None }));
    assert_eq!(attempts.attempt, 1);
    assert_eq!(r.tree.prefix_match_with_counts("hello").matched_char_count, 5);
}

#[test]
fn a_failed_connection_is_given_up_after_the_last_attempt() {
    let mut r = router(3);
    let mut attempts = Attempts::new(&proxy_config(2));
    for _ in 0..2 {
        let (_, guard) = begin(&attempts, &mut r, "hello").unwrap();
        let next = end(&mut attempts, &mut r, guard, Reply::Failure { status: 502 }, "hello");
        assert!(matches!(next, Next::Retry));
    }
    let (_, guard) = begin(&attempts, &mut r, "hello").unwrap();
    match end(&mut attempts, &mut r, guard, Reply::Failure { status: 504 }, "hello") {
        Next::GiveUp { answer } => assert_eq!((answer.status, answer.text), (504, "Backend unavailable")),
        other => panic!("unexpected: {:?}", other),
    }
    for w in r.workers().iter() {
        assert_eq!(w.load(), 0);
    }
    assert_eq!(r.tree.prefix_match_with_counts("hello").matched_char_count, 0);
}

#[test]
fn clients_errors_are_not_held_against_a_replica() {
    let mut r = router(1);
    let config = proxy_config(0);
    for _ in 0..10 {
        let mut attempts = Attempts::new(&config);
        let (_, guard) = begin(&attempts, &mut r, "").unwrap();
        end(&mut attempts, &mut r, guard, Reply::Answer { status: 404, streaming: false }, "");
    }
    assert_eq!(r.workers()[0].circuit_state(0), CircuitState::Closed);
    for _ in 0..5 {
        let mut attempts = Attempts::new(&config);
        let (_, guard) = begin(&attempts, &mut r, "").unwrap();
        end(&mut attempts, &mut r, guard, Reply::Answer { status: 501, streaming: false }, "");
    }
    assert_eq!(r.workers()[0].circuit_state(0), CircuitState::Open);
    let attempts = Attempts::new(&config);
    assert!(begin(&attempts, &mut r, "").is_err());
}

#[test]
fn the_routed_peer_is_told_on_request() {
    let mut config = proxy_config(0);
    assert_eq!(routed_peer(&config, "http://w0"), None);
    config.add_routed_peer_header = true;
    assert_eq!(routed_peer(&config, "http://w0"), Some("http://w0".to_string()));
}
