use cart::config::{
    default_load_penalty, default_max_load, reload_rejection, AppConfig, CacheSection, CircuitBreakerSection, CliArgs,
    ConfigError, HealthSection, LoggingSection, ProxySection, Section, SectionChange, ServerConfig, WorkerEntry,
};
use cart::float32::F32;
use cart::layers::{finish, layer_files, merge_yaml, ConfigFile, FileContent, Key, Layer, LoadError};
use cart::yaml::parse_yaml;
use serde_yaml::Value;
use std::path::PathBuf;

// ---- from documents to configurations ----

/// The value of a key.
fn get<'a>(layer: &'a Layer<Value>, name: &str) -> Option<&'a Layer<Value>> {
    match layer {
        Layer::Mapping(entries) => entries
            .iter()
            .find(|(key, _)| matches!(key, Key::Name(n) if n == name))
            .map(|(_, value)| value),
        Layer::Whole(..) => None,
    }
}

fn whole<'a>(layer: &'a Layer<Value>, name: &str) -> Option<&'a Value> {
    match get(layer, name) {
        Some(Layer::Whole(value, _)) => Some(value),
        _ => None,
    }
}

fn text(v: &Layer<Value>, key: &str, default: &str) -> String {
    whole(v, key).and_then(|x| x.as_str()).unwrap_or(default).to_string()
}

fn number(v: &Layer<Value>, key: &str, default: u64) -> u64 {
    whole(v, key).and_then(|x| x.as_u64()).unwrap_or(default)
}

fn float(v: &Layer<Value>, key: &str, default: F32) -> F32 {
    match whole(v, key).and_then(|x| x.as_f64()) {
        Some(x) => f32_of(x as f32),
        None => default,
    }
}

fn f32_of(x: f32) -> F32 {
    F32 { bits: x.to_bits() }
}

/// The configuration that a document stands for.
fn schema(v: Layer<Value>) -> Result<AppConfig, String> {
    let known = ["server", "workers", "cache", "health", "proxy", "circuit_breaker", "logging"];
    if let Layer::Mapping(entries) = &v {
        for (key, _) in entries {
            match key {
                Key::Name(name) if known.contains(&name.as_str()) => {}
                Key::Name(other) | Key::Other(other) => return Err(format!("unknown field `{}`", other)),
            }
        }
    }
    let list = whole(&v, "workers").and_then(|w| w.as_sequence()).ok_or("missing field `workers`")?;
    let mut workers = Vec::new();
    for entry in list {
        let url = entry.get("url").and_then(|x| x.as_str()).ok_or("missing field `url`")?;
        let count = |key: &str, default: usize| entry.get(key).and_then(|x| x.as_u64()).map_or(default, |n| n as usize);
        workers.push(WorkerEntry {
            url: url.to_string(),
            max_load: count("max_load", default_max_load()),
            load_penalty: count("load_penalty", default_load_penalty()),
        });
    }
    let mut config = AppConfig::with_workers(workers);
    if let Some(s) = get(&v, "server") {
        config.server = ServerConfig {
            host: text(s, "host", &config.server.host),
            port: number(s, "port", config.server.port as u64) as u16,
        };
    }
    if let Some(s) = get(&v, "cache") {
        let d = CacheSection::default();
        config.cache = CacheSection {
            threshold: float(s, "threshold", d.threshold),
            balance_abs_threshold: number(s, "balance_abs_threshold", d.balance_abs_threshold as u64) as usize,
            balance_rel_threshold: float(s, "balance_rel_threshold", d.balance_rel_threshold),
            eviction_interval_secs: number(s, "eviction_interval_secs", d.eviction_interval_secs),
            max_tree_size: number(s, "max_tree_size", d.max_tree_size as u64) as usize,
            ..d
        };
    }
    if let Some(s) = get(&v, "health") {
        let d = HealthSection::default();
        config.health = HealthSection {
            endpoint: text(s, "endpoint", &d.endpoint),
            interval_secs: number(s, "interval_secs", d.interval_secs),
            failure_threshold: number(s, "failure_threshold", d.failure_threshold as u64) as u32,
            success_threshold: number(s, "success_threshold", d.success_threshold as u64) as u32,
        };
    }
    if let Some(s) = get(&v, "proxy") {
        let d = ProxySection::default();
        config.proxy = ProxySection {
            max_retries: number(s, "max_retries", d.max_retries as u64) as u32,
            initial_backoff_ms: number(s, "initial_backoff_ms", d.initial_backoff_ms),
            max_backoff_ms: number(s, "max_backoff_ms", d.max_backoff_ms),
            backoff_multiplier: float(s, "backoff_multiplier", d.backoff_multiplier),
            jitter_factor: float(s, "jitter_factor", d.jitter_factor),
            request_timeout_secs: number(s, "request_timeout_secs", d.request_timeout_secs),
            remote_media_url_policy: number(s, "remote_media_url_policy", d.remote_media_url_policy as u64) as u16,
            ..d
        };
    }
    if let Some(s) = get(&v, "circuit_breaker") {
        let d = CircuitBreakerSection::default();
        config.circuit_breaker = CircuitBreakerSection {
            failure_threshold: number(s, "failure_threshold", d.failure_threshold as u64) as u32,
            success_threshold: number(s, "success_threshold", d.success_threshold as u64) as u32,
            timeout_secs: number(s, "timeout_secs", d.timeout_secs),
        };
    }
    if let Some(s) = get(&v, "logging") {
        config.logging = LoggingSection { level: text(s, "level", &config.logging.level) };
    }
    Ok(config)
}

fn file(path: &str, contents: Option<&str>) -> ConfigFile {
    let content = match contents {
        None => FileContent::Unreadable("No such file or directory".to_string()),
        Some(contents) => FileContent::Bytes(contents.as_bytes().to_vec()),
    };
    ConfigFile { path: path.to_string(), content }
}

/// Loads files that are given by name and contents.
fn load(files: &[(&str, Option<&str>)]) -> Result<AppConfig, LoadError> {
    AppConfig::load(files.iter().map(|(path, contents)| file(path, *contents)).collect(), schema)
}

fn load_one(yaml: &str) -> Result<AppConfig, LoadError> {
    load(&[("config.yaml", Some(yaml))])
}

/// The message of an error, with its number.
fn message(e: &LoadError) -> String {
    let number = e.number().map(|x| f32::from_bits(x.bits).to_string()).unwrap_or_default();
    e.message(&number)
}

#[test]
fn test_load_minimal_config() {
    let yaml = r#"
workers:
  - url: "http://localhost:8050"
"#;
    let config = load_one(yaml).unwrap();
    assert_eq!(config.workers.len(), 1);
    assert_eq!(config.workers[0].url, "http://localhost:8050");
    assert_eq!(config.workers[0].max_load, 20);
    assert_eq!(config.server.host, "0.0.0.0");
    assert_eq!(config.server.port, 6700);
    assert_eq!(f32::from_bits(config.cache.threshold.bits), 0.3);
    assert_eq!(config.health.interval_secs, 10);
    assert_eq!(config.proxy.max_retries, 1);
    assert_eq!(config.circuit_breaker.failure_threshold, 5);
    assert_eq!(config.logging.level, "info");
}

#[test]
fn test_load_full_config() {
    let yaml = r#"
server:
  host: "127.0.0.1"
  port: 9090
workers:
  - url: "http://node1:8050"
    max_load: 10
  - url: "http://node2:8050"
    max_load: 30
cache:
  threshold: 0.5
  balance_abs_threshold: 64
  balance_rel_threshold: 2.0
  eviction_interval_secs: 120
  max_tree_size: 131072
health:
  endpoint: "/healthz"
  interval_secs: 20
  failure_threshold: 5
  success_threshold: 2
proxy:
  max_retries: 5
  initial_backoff_ms: 200
  max_backoff_ms: 10000
  backoff_multiplier: 3.0
  jitter_factor: 0.5
  request_timeout_secs: 600
circuit_breaker:
  failure_threshold: 10
  success_threshold: 3
  timeout_secs: 60
logging:
  level: "debug"
"#;
    let config = load_one(yaml).unwrap();
    assert_eq!(config.server.host, "127.0.0.1");
    assert_eq!(config.server.port, 9090);
    assert_eq!(config.workers.len(), 2);
    assert_eq!(config.workers[0].max_load, 10);
    assert_eq!(config.workers[1].max_load, 30);
    assert_eq!(f32::from_bits(config.cache.threshold.bits), 0.5);
    assert_eq!(config.cache.balance_abs_threshold, 64);
    assert_eq!(config.health.endpoint, "/healthz");
    assert_eq!(config.proxy.max_retries, 5);
    assert_eq!(config.proxy.request_timeout_secs, 600);
    assert_eq!(config.circuit_breaker.timeout_secs, 60);
    assert_eq!(config.logging.level, "debug");
}

#[test]
fn test_missing_workers_fails() {
    let yaml = r#"
server:
  port: 8080
"#;
    let result = load_one(yaml);
    assert!(result.is_err());
    assert!(message(&result.unwrap_err()).contains("missing field `workers`"));
}

#[test]
fn test_unknown_field_rejected() {
    let yaml = r#"
workers:
  - url: "http://localhost:8050"
unknown_field: "value"
"#;
    let result = load_one(yaml);
    assert!(result.is_err());
    assert!(message(&result.unwrap_err()).contains("unknown field"));
}

#[test]
fn test_empty_workers_fails() {
    let result = load_one("\nworkers: []\n");
    assert!(result.is_err());
    assert!(message(&result.unwrap_err()).contains("At least one worker"));
}

#[test]
fn test_invalid_worker_url() {
    let yaml = r#"
workers:
  - url: "localhost:8050"
"#;
    let result = load_one(yaml);
    assert!(result.is_err());
    assert!(message(&result.unwrap_err()).contains("must start with"));
}

#[test]
fn test_zero_max_load_rejected() {
    let yaml = r#"
workers:
  - url: "http://localhost:8050"
    max_load: 0
"#;
    let result = load_one(yaml);
    assert!(result.is_err());
    assert!(message(&result.unwrap_err()).contains("max_load must be > 0"));
}

#[test]
fn test_out_of_range_threshold() {
    let yaml = r#"
workers:
  - url: "http://localhost:8050"
cache:
  threshold: 1.5
"#;
    let result = load_one(yaml);
    assert!(result.is_err());
    assert!(message(&result.unwrap_err()).contains("cache.threshold must be 0.0-1.0, got 1.5"));
}

#[test]
fn test_conversion_methods() {
    let yaml = r#"
workers:
  - url: "http://localhost:8050"
cache:
  threshold: 0.4
  balance_abs_threshold: 50
proxy:
  max_retries: 4
  initial_backoff_ms: 150
health:
  endpoint: "/status"
  interval_secs: 15
"#;
    let config = load_one(yaml).unwrap();

    let cache_config = config.cache_config();
    assert_eq!(f32::from_bits(cache_config.cache_threshold.bits), 0.4);
    assert_eq!(cache_config.balance_abs_threshold, 50);

    let proxy_config = config.proxy_config();
    assert_eq!(proxy_config.max_retries, 4);
    assert_eq!(proxy_config.initial_backoff_ms, 150);
    assert_eq!(proxy_config.request_timeout_secs, 10000);

    let health_config = config.health_config();
    assert_eq!(health_config.endpoint, "/status");
    assert_eq!(health_config.interval_secs, 15);
}

fn rejection(changed: &[Section]) -> String {
    let changes = changed
        .iter()
        .map(|section| SectionChange { section: *section, old: "a".to_string(), new: "b".to_string() })
        .collect();
    reload_rejection(&changes)
}

#[test]
fn test_reload_compatibility_workers_only() {
    let yaml1 = r#"
workers:
  - url: "http://localhost:8050"
"#;
    let yaml2 = r#"
workers:
  - url: "http://localhost:8050"
  - url: "http://localhost:8051"
"#;
    let c1 = load_one(yaml1).unwrap();
    let c2 = load_one(yaml2).unwrap();
    assert!(c1.validate_reload_compatibility(&c2).is_ok());
}

#[test]
fn test_reload_compatibility_rejects_cache_change() {
    let yaml1 = r#"
workers:
  - url: "http://localhost:8050"
cache:
  threshold: 0.3
"#;
    let yaml2 = r#"
workers:
  - url: "http://localhost:8050"
cache:
  threshold: 0.5
"#;
    let c1 = load_one(yaml1).unwrap();
    let c2 = load_one(yaml2).unwrap();
    let changed = c1.validate_reload_compatibility(&c2).unwrap_err();
    assert_eq!(changed, vec![Section::Cache]);
    assert!(rejection(&changed).contains("cache config changed"));
}

#[test]
fn test_reload_compatibility_rejects_server_change() {
    let yaml1 = r#"
workers:
  - url: "http://localhost:8050"
server:
  port: 8080
"#;
    let yaml2 = r#"
workers:
  - url: "http://localhost:8050"
server:
  port: 9090
"#;
    let c1 = load_one(yaml1).unwrap();
    let c2 = load_one(yaml2).unwrap();
    let changed = c1.validate_reload_compatibility(&c2).unwrap_err();
    assert!(rejection(&changed).contains("server config changed"));
}

#[test]
fn test_remote_media_url_policy_default_200() {
    let yaml = r#"
workers:
  - url: "http://localhost:8050"
"#;
    let config = load_one(yaml).unwrap();
    assert_eq!(config.proxy.remote_media_url_policy, 200);
}

#[test]
fn test_remote_media_url_policy_400_accepted() {
    let yaml = r#"
workers:
  - url: "http://localhost:8050"
proxy:
  remote_media_url_policy: 400
"#;
    let config = load_one(yaml).unwrap();
    assert_eq!(config.proxy.remote_media_url_policy, 400);
}

#[test]
fn test_remote_media_url_policy_500_accepted() {
    let yaml = r#"
workers:
  - url: "http://localhost:8050"
proxy:
  remote_media_url_policy: 500
"#;
    let config = load_one(yaml).unwrap();
    assert_eq!(config.proxy.remote_media_url_policy, 500);
}

#[test]
fn test_remote_media_url_policy_999_rejected() {
    let yaml = r#"
workers:
  - url: "http://localhost:8050"
proxy:
  remote_media_url_policy: 999
"#;
    let result = load_one(yaml);
    assert!(result.is_err());
    assert!(message(&result.unwrap_err()).contains("remote_media_url_policy must be 200 or a valid 4xx/5xx"));
}

#[test]
fn test_remote_media_url_policy_300_rejected() {
    let yaml = r#"
workers:
  - url: "http://localhost:8050"
proxy:
  remote_media_url_policy: 300
"#;
    let result = load_one(yaml);
    assert!(result.is_err());
}

// ---- several files ----

fn parse_from(args: &[&str]) -> CliArgs<PathBuf> {
    let command = clap::Command::new("cache-aware-router").arg(
        clap::Arg::new("config")
            .short('c')
            .long("config")
            .action(clap::ArgAction::Append)
            .value_parser(clap::builder::PathBufValueParser::new()),
    );
    let matches = command.try_get_matches_from(args).unwrap();
    let config = matches
        .get_many::<PathBuf>("config")
        .map(|paths| paths.cloned().collect())
        .unwrap_or_default();
    CliArgs::new(config, PathBuf::from("config.yaml"), false)
}

#[test]
fn test_config_flag_is_repeatable() {
    let args = parse_from(&["cache-aware-router", "-c", "a.yaml", "-c", "b.yaml"]);
    assert_eq!(args.config, vec![PathBuf::from("a.yaml"), PathBuf::from("b.yaml")]);
    assert!(!args.config_check);

    let defaulted = parse_from(&["cache-aware-router"]);
    assert_eq!(defaulted.config, vec![PathBuf::from("config.yaml")]);
}

const BASE_YAML: &str = r#"
server:
  host: "127.0.0.1"
  port: 9090
workers:
  - url: "http://node1:8050"
    max_load: 10
  - url: "http://node2:8050"
cache:
  threshold: 0.5
  max_tree_size: 131072
"#;

#[test]
fn test_merge_later_file_overrides_scalars() {
    let overlay = "server:\n  port: 7000\nlogging:\n  level: \"debug\"\n";
    let config = load(&[("base.yaml", Some(BASE_YAML)), ("overlay.yaml", Some(overlay))]).unwrap();
    assert_eq!(config.server.port, 7000);
    // Keys the overlay does not mention survive, at every depth.
    assert_eq!(config.server.host, "127.0.0.1");
    assert_eq!(f32::from_bits(config.cache.threshold.bits), 0.5);
    assert_eq!(config.cache.max_tree_size, 131072);
    assert_eq!(config.logging.level, "debug");
}

#[test]
fn test_merge_replaces_sequences_wholesale() {
    let overlay = "workers:\n  - url: \"http://node3:8050\"\n";
    let config = load(&[("base.yaml", Some(BASE_YAML)), ("overlay.yaml", Some(overlay))]).unwrap();
    assert_eq!(config.workers.len(), 1);
    assert_eq!(config.workers[0].url, "http://node3:8050");
}

#[test]
fn test_merge_empty_overlay_is_a_noop() {
    for overlay in ["", "\n", "# nothing here yet\n"] {
        let config = load(&[("base.yaml", Some(BASE_YAML)), ("overlay.yaml", Some(overlay))])
            .unwrap_or_else(|e| panic!("empty overlay {:?} broke the merge: {}", overlay, message(&e)));
        assert_eq!(config.workers.len(), 2);
        assert_eq!(config.server.port, 9090);
    }
}

#[test]
fn test_merge_three_files_last_wins() {
    let config = load(&[
        ("base.yaml", Some(BASE_YAML)),
        ("mid.yaml", Some("server:\n  port: 7000\n")),
        ("top.yaml", Some("server:\n  port: 8000\n")),
    ])
    .unwrap();
    assert_eq!(config.server.port, 8000);
}

#[test]
fn test_missing_file_error_names_the_path() {
    let err = message(&load(&[("base.yaml", Some(BASE_YAML)), ("/nonexistent/cart-overlay.yaml", None)]).unwrap_err());
    assert!(err.contains("cart-overlay.yaml"), "error lost the path: {}", err);
}

#[test]
fn test_parse_error_names_the_file() {
    let broken = "server:\n  port: [unclosed\n";
    let err = message(&load(&[("base.yaml", Some(BASE_YAML)), ("broken.yaml", Some(broken))]).unwrap_err());
    assert!(err.contains("broken.yaml"), "error lost the path: {}", err);
}

#[test]
fn test_non_mapping_root_rejected() {
    let err = message(&load(&[("base.yaml", Some(BASE_YAML)), ("scalar.yaml", Some("just-a-string\n"))]).unwrap_err());
    assert!(err.contains("must contain a YAML mapping"), "unexpected error: {}", err);
}

// ---- messages and edges ----

fn valid() -> AppConfig {
    AppConfig::with_workers(vec![WorkerEntry {
        url: "https://node1:8050".to_string(),
        max_load: 20,
        load_penalty: 0,
    }])
}

#[test]
fn every_fault_has_its_message() {
    assert!(valid().validate().is_ok());

    let mut c = valid();
    c.workers.clear();
    assert_eq!(c.validate().unwrap_err().message(""), "At least one worker URL is required");

    let mut c = valid();
    c.workers[0].url = "ftp://node1".to_string();
    assert_eq!(
        c.validate().unwrap_err().message(""),
        "Invalid worker URL 'ftp://node1': must start with http:// or https://"
    );

    let mut c = valid();
    c.workers[0].max_load = 0;
    assert_eq!(
        c.validate().unwrap_err().message(""),
        "max_load must be > 0 for worker 'https://node1:8050'"
    );

    let mut c = valid();
    c.cache.threshold = f32_of(-0.5);
    let e = c.validate().unwrap_err();
    assert!(matches!(e, ConfigError::CacheThreshold(_)));
    assert_eq!(e.number().map(|x| f32::from_bits(x.bits)), Some(-0.5));
    assert_eq!(e.message("-0.5"), "cache.threshold must be 0.0-1.0, got -0.5");

    let mut c = valid();
    c.proxy.jitter_factor = f32_of(1.0001);
    let e = c.validate().unwrap_err();
    assert!(matches!(e, ConfigError::JitterFactor(_)));
    assert_eq!(e.message("1.0001"), "proxy.jitter_factor must be 0.0-1.0, got 1.0001");

    let mut c = valid();
    c.server.port = 0;
    assert_eq!(c.validate().unwrap_err().message(""), "server.port must be > 0");

    let mut c = valid();
    c.proxy.remote_media_url_policy = 399;
    assert_eq!(
        c.validate().unwrap_err().message(""),
        "proxy.remote_media_url_policy must be 200 or a valid 4xx/5xx HTTP status code, got 399"
    );

    let mut c = valid();
    c.cache.daily_cleanup_hour_utc = 24;
    assert_eq!(
        c.validate().unwrap_err().message(""),
        "cache.daily_cleanup_hour_utc must be -1 (disabled) or 0-23, got 24"
    );
}

#[test]
fn the_first_fault_is_reported() {
    let mut c = valid();
    c.server.port = 0;
    c.cache.threshold = f32_of(f32::NAN);
    c.workers.push(WorkerEntry { url: "nowhere".to_string(), max_load: 0, load_penalty: 0 });
    assert!(matches!(c.validate().unwrap_err(), ConfigError::InvalidWorkerUrl(_)));
    c.workers.pop();
    assert!(matches!(c.validate().unwrap_err(), ConfigError::CacheThreshold(_)));
    c.cache.threshold = f32_of(1.0);
    assert!(matches!(c.validate().unwrap_err(), ConfigError::ServerPort));
}

#[test]
fn edges_of_the_ranges_are_valid() {
    for threshold in [0.0f32, -0.0, 1.0] {
        let mut c = valid();
        c.cache.threshold = f32_of(threshold);
        c.proxy.jitter_factor = f32_of(threshold);
        assert!(c.validate().is_ok());
    }
    for policy in [200u16, 400, 599] {
        let mut c = valid();
        c.proxy.remote_media_url_policy = policy;
        assert!(c.validate().is_ok());
    }
    for policy in [0u16, 199, 201, 399, 600] {
        let mut c = valid();
        c.proxy.remote_media_url_policy = policy;
        assert!(c.validate().is_err());
    }
    for hour in [-7i32, -1, 0, 23] {
        let mut c = valid();
        c.cache.daily_cleanup_hour_utc = hour;
        assert!(c.validate().is_ok());
    }
}

#[test]
fn defaults_are_the_documented_ones() {
    let c = valid();
    assert_eq!(f32::from_bits(c.cache.balance_rel_threshold.bits), 1.25);
    assert_eq!(c.cache.match_abs_threshold, 8192);
    assert_eq!(c.cache.balance_abs_threshold, 5);
    assert_eq!(c.cache.eviction_interval_secs, 60);
    assert_eq!(c.cache.max_tree_size, 1048576);
    assert_eq!(c.cache.daily_cleanup_hour_utc, -1);
    assert_eq!(f32::from_bits(c.proxy.backoff_multiplier.bits), 2.0);
    assert_eq!(f32::from_bits(c.proxy.jitter_factor.bits), 0.25);
    assert_eq!(c.proxy.initial_backoff_ms, 100);
    assert_eq!(c.proxy.max_backoff_ms, 5000);
    assert_eq!(c.proxy.connect_timeout_secs, 2);
    assert_eq!(c.proxy.max_body_size, 10485760);
    assert!(!c.proxy.add_routed_peer_header);
    assert_eq!(c.health.endpoint, "/v1/models");
    assert_eq!(c.health.failure_threshold, 3);
    assert_eq!(c.health.success_threshold, 1);
    assert_eq!(c.circuit_breaker.success_threshold, 2);
    assert_eq!(c.circuit_breaker.timeout_secs, 30);
    assert_eq!(c.listen_address(), "0.0.0.0:6700");
    assert_eq!(c.breaker_config().timeout_secs, 30);
}

#[test]
fn a_reload_names_every_section_that_differs() {
    let a = valid();
    let mut b = valid();
    b.server.host = "::1".to_string();
    b.cache.max_tree_size = 1;
    b.health.endpoint = "/healthz".to_string();
    b.proxy.jitter_factor = f32_of(0.5);
    b.circuit_breaker.timeout_secs = 31;
    b.logging.level = "debug".to_string();
    let changed = a.validate_reload_compatibility(&b).unwrap_err();
    assert_eq!(
        changed,
        vec![
            Section::Server,
            Section::Cache,
            Section::Health,
            Section::Proxy,
            Section::CircuitBreaker,
            Section::Logging
        ]
    );
    assert_eq!(
        rejection(&changed),
        "Config reload rejected: only worker list changes are supported.\nChanges detected:\
         \n  - server config changed (old: a, new: b)\n  - cache config changed (old: a, new: b)\
         \n  - health config changed (old: a, new: b)\n  - proxy config changed (old: a, new: b)\
         \n  - circuit_breaker config changed (old: a, new: b)\n  - logging config changed (old: a, new: b)"
    );
}

#[test]
fn zeros_of_either_sign_are_no_change() {
    let mut a = valid();
    let mut b = valid();
    a.cache.threshold = f32_of(0.0);
    b.cache.threshold = f32_of(-0.0);
    assert!(a.validate_reload_compatibility(&b).is_ok());
    b.cache.balance_rel_threshold = f32_of(f32::NAN);
    a.cache.balance_rel_threshold = f32_of(f32::NAN);
    assert!(a.validate_reload_compatibility(&b).is_err());
}

#[test]
fn load_errors_have_their_messages() {
    let read = LoadError::Unreadable { path: "a.yaml".to_string(), error: "gone".to_string() };
    assert_eq!(message(&read), "Failed to read config file 'a.yaml': gone");
    let parse = LoadError::Unparsable { path: "a.yaml".to_string(), error: "bad".to_string() };
    assert_eq!(message(&parse), "Failed to parse config file 'a.yaml': bad");
    let root = LoadError::NoMapping { path: "a.yaml".to_string() };
    assert_eq!(message(&root), "Config file 'a.yaml' must contain a YAML mapping at the top level");
    let schema = finish(
        vec!["a.yaml".to_string(), "b.yaml".to_string()],
        Err("missing field `workers`".to_string()),
    )
    .unwrap_err();
    assert_eq!(message(&schema), "Failed to parse config [a.yaml, b.yaml]: missing field `workers`");
    assert!(finish(vec![], Ok(valid())).is_ok());
}

#[test]
fn a_document_that_makes_up_no_configuration_names_all_files() {
    let err = load(&[("a.yaml", Some("server:\n  port: 8080\n")), ("b.yaml", Some(""))]).unwrap_err();
    assert_eq!(message(&err), "Failed to parse config [a.yaml, b.yaml]: missing field `workers`");
}

#[test]
fn a_fault_that_only_appears_after_layering_is_found() {
    assert!(load(&[("base.yaml", Some(BASE_YAML))]).is_ok());
    let err = load(&[("base.yaml", Some(BASE_YAML)), ("top.yaml", Some("server: {port: 0}\n"))]).unwrap_err();
    assert_eq!(message(&err), "server.port must be > 0");
}

#[test]
fn the_first_bad_file_is_reported() {
    let err = load(&[("a.yaml", Some("- 1\n")), ("b.yaml", None)]).unwrap_err();
    assert!(matches!(err, LoadError::NoMapping { .. }));
    let err = load(&[("b.yaml", None), ("a.yaml", Some("- 1\n"))]).unwrap_err();
    assert!(matches!(err, LoadError::Unreadable { .. }));
    let broken = ConfigFile { path: "dir".to_string(), content: FileContent::Broken("is a directory".to_string()) };
    let err = layer_files(&vec![broken]).unwrap_err();
    assert_eq!(message(&err), "Failed to parse config file 'dir': is a directory");
}

// ---- layers ----

/// A layer as text, with the entries in their order.
fn shown(layer: &Layer<Value>) -> String {
    match layer {
        Layer::Mapping(entries) => {
            let parts: Vec<String> = entries
                .iter()
                .map(|(key, value)| match key {
                    Key::Name(name) => format!("{}={}", name, shown(value)),
                    Key::Other(text) => format!("<{}>={}", text.trim(), shown(value)),
                })
                .collect();
            format!("{{{}}}", parts.join(" "))
        }
        Layer::Whole(value, _) => serde_yaml::to_string(value).unwrap().trim().replace('\n', ","),
    }
}

fn parsed(yaml: &str) -> Layer<Value> {
    parse_yaml(yaml.as_bytes()).unwrap()
}

#[test]
fn a_text_is_parsed_into_mappings_and_wholes() {
    assert_eq!(shown(&parsed("a: {x: 1, y: two}\nb: [1, 2]\n1: one\n")), "{a={x=1 y=two} b=- 1,- 2 <1>=one}");
    assert!(parsed("").is_null());
    assert!(parsed("# nothing\n").is_null());
    assert!(parsed("!tag null").is_null());
    assert!(parsed("!tag {a: 1}").is_mapping());
    assert!(parsed("a: 1").is_mapping());
    assert!(!parsed("[1]").is_mapping());
    assert!(!parsed("[1]").is_null());
    assert!(parse_yaml(b"a: [").unwrap_err().contains("line"));
    assert!(parse_yaml(b"a: 1\na: 2\n").is_err());
    assert!(parse_yaml(b"\xff").is_err());
}

#[test]
fn mappings_merge_and_other_values_replace() {
    let mut left = parsed("a: {x: 1, y: 2}\nb: [1, 2]\n1: one\n");
    merge_yaml(&mut left, parsed("a: {y: 3, z: 4}\nb: [9]\n1: eins\nc: 5\nd: null\n"));
    assert_eq!(shown(&left), "{a={x=1 y=3 z=4} b=- 9 <1>=eins c=5 d=null}");
}

#[test]
fn merging_again_changes_nothing() {
    let overlay = "a: {y: 3, z: {w: [4]}}\nb: [9]\n1: eins\nc: 5\nd: null\n";
    for base in ["a: {x: 1, y: 2, z: 0}\nb: {q: 1}\n1: one\n", "{}", "[1]"] {
        let mut left = parsed(base);
        merge_yaml(&mut left, parsed(overlay));
        let once = shown(&left);
        merge_yaml(&mut left, parsed(overlay));
        assert_eq!(shown(&left), once);
    }
    let mut itself = parsed(overlay);
    merge_yaml(&mut itself, parsed(overlay));
    assert_eq!(shown(&itself), shown(&parsed(overlay)));
}

#[test]
fn a_null_inside_an_overlay_keeps_the_value() {
    let mut left = parsed("a: {x: 1}\n");
    merge_yaml(&mut left, parsed("a: null\n"));
    merge_yaml(&mut left, parsed("a: !tag null\n"));
    assert_eq!(shown(&left), "{a={x=1}}");
}

#[test]
fn a_tagged_mapping_replaces() {
    let mut left = parsed("a: {x: 1}\n");
    merge_yaml(&mut left, parsed("a: !tag {y: 2}\n"));
    assert!(matches!(get(&left, "a"), Some(Layer::Whole(Value::Tagged(_), _))));
}
