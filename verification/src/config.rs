//! The configuration: its sections, their defaults, what a valid configuration
//! is, and which changes a running router can take over.

use crate::circuit_breaker::CircuitBreakerConfig;
use crate::float32::{
    in_unit_interval, lemma_same_number_bits, lemma_unit_interval_bits, lemma_up_to_one, number_eq, same_number,
    within_unit_interval, F32,
};
use crate::text::{decimal, decimal_string, is_prefix, starts_with};
use vstd::prelude::*;
use vstd::string::*;

verus! {

/// What the command line asks for. Paths are values of `P`.
#[derive(Debug)]
pub struct CliArgs<P> {
    /// The configuration files, which are layered in this order.
    pub config: Vec<P>,
    /// Whether to check the configuration only.
    pub config_check: bool,
}

impl<P> CliArgs<P> {
    /// The command line with these files, or with the default one if it names
    /// none.
    pub fn new(config: Vec<P>, default_config: P, config_check: bool) -> (r: Self)
        ensures
            r.config_check == config_check,
            r.config@ == if config@.len() == 0 {
                seq![default_config]
            } else {
                config@
            },
    {
        let mut config = config;
        if config.len() == 0 {
            config.push(default_config);
        }
        CliArgs { config, config_check }
    }
}

/// The whole configuration. Only the list of workers has no default.
#[derive(Clone, Debug)]
pub struct AppConfig {
    pub server: ServerConfig,
    pub workers: Vec<WorkerEntry>,
    pub cache: CacheSection,
    pub health: HealthSection,
    pub proxy: ProxySection,
    pub circuit_breaker: CircuitBreakerSection,
    pub logging: LoggingSection,
}

/// Where the router listens.
#[derive(Clone, Debug)]
pub struct ServerConfig {
    pub host: String,
    pub port: u16,
}

/// When a request follows its prefix, and how large the tree may grow.
#[derive(Clone, Copy, Debug)]
pub struct CacheSection {
    pub threshold: F32,
    pub match_abs_threshold: usize,
    pub balance_abs_threshold: usize,
    pub balance_rel_threshold: F32,
    pub eviction_interval_secs: u64,
    pub max_tree_size: usize,
    pub daily_cleanup_hour_utc: i32,
}

/// How replicas are checked.
#[derive(Clone, Debug)]
pub struct HealthSection {
    pub endpoint: String,
    pub interval_secs: u64,
    pub failure_threshold: u32,
    pub success_threshold: u32,
}

/// How requests are forwarded and retried.
#[derive(Clone, Copy, Debug)]
pub struct ProxySection {
    pub max_retries: u32,
    pub initial_backoff_ms: u64,
    pub max_backoff_ms: u64,
    pub backoff_multiplier: F32,
    pub jitter_factor: F32,
    pub request_timeout_secs: u64,
    /// Bounds the time to connect, apart from the time of the whole request: a
    /// replica whose address swallows packets fails fast, while a long stream
    /// may still take its time.
    pub connect_timeout_secs: u64,
    pub add_routed_peer_header: bool,
    pub max_body_size: usize,
    pub remote_media_url_policy: u16,
}

/// When the circuit breaker of a replica opens and closes.
#[derive(Clone, Copy, Debug)]
pub struct CircuitBreakerSection {
    pub failure_threshold: u32,
    pub success_threshold: u32,
    pub timeout_secs: u64,
}

/// What is logged.
#[derive(Clone, Debug)]
pub struct LoggingSection {
    pub level: String,
}

/// A replica of the pool.
#[derive(Clone, Debug)]
pub struct WorkerEntry {
    pub url: String,
    pub max_load: usize,
    pub load_penalty: usize,
}

/// The cap on the load of a worker that names none.
pub fn default_max_load() -> (r: usize)
    ensures
        r == 20,
{
    20
}

/// The penalty of a worker that names none.
pub fn default_load_penalty() -> (r: usize)
    ensures
        r == 0,
{
    0
}

impl ServerConfig {
    pub open spec fn is_default(&self) -> bool {
        self.host@ == "0.0.0.0"@ && self.port == 6700
    }
}

impl Default for ServerConfig {
    fn default() -> (r: Self)
        ensures
            r.is_default(),
    {
        ServerConfig { host: "0.0.0.0".to_owned(), port: 6700 }
    }
}

impl CacheSection {
    /// The thresholds are 0.3 and 1.25.
    pub open spec fn is_default(&self) -> bool {
        &&& self.threshold.bits == 0x3e99_999a
        &&& self.match_abs_threshold == 8192
        &&& self.balance_abs_threshold == 5
        &&& self.balance_rel_threshold.bits == 0x3fa0_0000
        &&& self.eviction_interval_secs == 60
        &&& self.max_tree_size == 1048576
        &&& self.daily_cleanup_hour_utc == -1
    }
}

impl CacheSection {
    /// What the router is given of this section.
    pub open spec fn spec_config(&self) -> CacheConfig {
        CacheConfig {
            cache_threshold: self.threshold,
            match_abs_threshold: self.match_abs_threshold,
            balance_abs_threshold: self.balance_abs_threshold,
            balance_rel_threshold: self.balance_rel_threshold,
            eviction_interval_secs: self.eviction_interval_secs,
            max_tree_size: self.max_tree_size,
            daily_cleanup_hour_utc: self.daily_cleanup_hour_utc,
        }
    }
}

impl Default for CacheSection {
    fn default() -> (r: Self)
        ensures
            r.is_default(),
    {
        CacheSection {
            threshold: F32 { bits: 0x3e99_999a },
            match_abs_threshold: 8192,
            balance_abs_threshold: 5,
            balance_rel_threshold: F32 { bits: 0x3fa0_0000 },
            eviction_interval_secs: 60,
            max_tree_size: 1048576,
            daily_cleanup_hour_utc: -1,
        }
    }
}

impl HealthSection {
    pub open spec fn is_default(&self) -> bool {
        &&& self.endpoint@ == "/v1/models"@
        &&& self.interval_secs == 10
        &&& self.failure_threshold == 3
        &&& self.success_threshold == 1
    }
}

impl Default for HealthSection {
    fn default() -> (r: Self)
        ensures
            r.is_default(),
    {
        HealthSection {
            endpoint: "/v1/models".to_owned(),
            interval_secs: 10,
            failure_threshold: 3,
            success_threshold: 1,
        }
    }
}

impl ProxySection {
    /// The multiplier is 2.0 and the jitter 0.25; a body may have ten mebibytes.
    pub open spec fn is_default(&self) -> bool {
        &&& self.max_retries == 1
        &&& self.initial_backoff_ms == 100
        &&& self.max_backoff_ms == 5000
        &&& self.backoff_multiplier.bits == 0x4000_0000
        &&& self.jitter_factor.bits == 0x3e80_0000
        &&& self.request_timeout_secs == 10000
        &&& self.connect_timeout_secs == 2
        &&& !self.add_routed_peer_header
        &&& self.max_body_size == 10 * 1024 * 1024
        &&& self.remote_media_url_policy == 200
    }
}

impl Default for ProxySection {
    fn default() -> (r: Self)
        ensures
            r.is_default(),
    {
        ProxySection {
            max_retries: 1,
            initial_backoff_ms: 100,
            max_backoff_ms: 5000,
            backoff_multiplier: F32 { bits: 0x4000_0000 },
            jitter_factor: F32 { bits: 0x3e80_0000 },
            request_timeout_secs: 10000,
            connect_timeout_secs: 2,
            add_routed_peer_header: false,
            max_body_size: 10 * 1024 * 1024,
            remote_media_url_policy: 200,
        }
    }
}

impl CircuitBreakerSection {
    pub open spec fn is_default(&self) -> bool {
        self.failure_threshold == 5 && self.success_threshold == 2 && self.timeout_secs == 30
    }
}

impl Default for CircuitBreakerSection {
    fn default() -> (r: Self)
        ensures
            r.is_default(),
    {
        CircuitBreakerSection { failure_threshold: 5, success_threshold: 2, timeout_secs: 30 }
    }
}

impl LoggingSection {
    pub open spec fn is_default(&self) -> bool {
        self.level@ == "info"@
    }
}

impl Default for LoggingSection {
    fn default() -> (r: Self)
        ensures
            r.is_default(),
    {
        LoggingSection { level: "info".to_owned() }
    }
}

// ---------------------------------------------------------------------------
// What the parts of the router are given
// ---------------------------------------------------------------------------

/// What the router needs to know of the cache section.
#[derive(Clone, Copy, Debug)]
pub struct CacheConfig {
    pub cache_threshold: F32,
    pub match_abs_threshold: usize,
    pub balance_abs_threshold: usize,
    pub balance_rel_threshold: F32,
    pub eviction_interval_secs: u64,
    pub max_tree_size: usize,
    pub daily_cleanup_hour_utc: i32,
}

/// What the proxy needs to know of its section.
#[derive(Clone, Copy, Debug)]
pub struct ProxyConfig {
    pub max_retries: u32,
    pub initial_backoff_ms: u64,
    pub max_backoff_ms: u64,
    pub backoff_multiplier: F32,
    pub jitter_factor: F32,
    pub request_timeout_secs: u64,
    /// Bounds the time to connect, apart from the time of the whole request.
    pub connect_timeout_secs: u64,
    pub add_routed_peer_header: bool,
    pub max_body_size: usize,
    pub remote_media_url_policy: u16,
}

/// What a replica needs to know of the health section.
#[derive(Debug)]
pub struct HealthConfig {
    pub endpoint: String,
    pub interval_secs: u64,
    pub failure_threshold: u32,
    pub success_threshold: u32,
}

impl Clone for HealthConfig {
    fn clone(&self) -> (r: Self)
        ensures
            r == *self,
    {
        HealthConfig {
            endpoint: self.endpoint.clone(),
            interval_secs: self.interval_secs,
            failure_threshold: self.failure_threshold,
            success_threshold: self.success_threshold,
        }
    }
}

// ---------------------------------------------------------------------------
// Validity
// ---------------------------------------------------------------------------

/// Why a configuration is refused.
#[derive(Debug)]
pub enum ConfigError {
    NoWorkers,
    InvalidWorkerUrl(String),
    ZeroMaxLoad(String),
    CacheThreshold(F32),
    JitterFactor(F32),
    ServerPort,
    RemoteMediaUrlPolicy(u16),
    DailyCleanupHour(i32),
}

/// Why a configuration is refused, as a mathematical value.
pub enum Fault {
    NoWorkers,
    InvalidWorkerUrl(Seq<char>),
    ZeroMaxLoad(Seq<char>),
    CacheThreshold(F32),
    JitterFactor(F32),
    ServerPort,
    RemoteMediaUrlPolicy(u16),
    DailyCleanupHour(i32),
}

impl View for ConfigError {
    type V = Fault;

    open spec fn view(&self) -> Fault {
        match *self {
            ConfigError::NoWorkers => Fault::NoWorkers,
            ConfigError::InvalidWorkerUrl(url) => Fault::InvalidWorkerUrl(url@),
            ConfigError::ZeroMaxLoad(url) => Fault::ZeroMaxLoad(url@),
            ConfigError::CacheThreshold(x) => Fault::CacheThreshold(x),
            ConfigError::JitterFactor(x) => Fault::JitterFactor(x),
            ConfigError::ServerPort => Fault::ServerPort,
            ConfigError::RemoteMediaUrlPolicy(p) => Fault::RemoteMediaUrlPolicy(p),
            ConfigError::DailyCleanupHour(h) => Fault::DailyCleanupHour(h),
        }
    }
}

impl Fault {
    /// What is told to the operator. `number` is how the number of a fault that
    /// is no integer is written; the other faults do not need it.
    pub open spec fn message(self, number: Seq<char>) -> Seq<char> {
        match self {
            Fault::NoWorkers => "At least one worker URL is required"@,
            Fault::InvalidWorkerUrl(url) => "Invalid worker URL '"@ + url
                + "': must start with http:// or https://"@,
            Fault::ZeroMaxLoad(url) => "max_load must be > 0 for worker '"@ + url + "'"@,
            Fault::CacheThreshold(x) => "cache.threshold must be 0.0-1.0, got "@ + number,
            Fault::JitterFactor(x) => "proxy.jitter_factor must be 0.0-1.0, got "@ + number,
            Fault::ServerPort => "server.port must be > 0"@,
            Fault::RemoteMediaUrlPolicy(p) =>
                "proxy.remote_media_url_policy must be 200 or a valid 4xx/5xx HTTP status code, got "@
                + decimal(p as nat),
            Fault::DailyCleanupHour(h) =>
                "cache.daily_cleanup_hour_utc must be -1 (disabled) or 0-23, got "@ + signed_decimal(h as int),
        }
    }
}

/// An integer in decimal, with its sign if it is negative.
pub open spec fn signed_decimal(n: int) -> Seq<char> {
    if n < 0 {
        "-"@ + decimal((-n) as nat)
    } else {
        decimal(n as nat)
    }
}

impl ConfigError {
    /// The number of a fault that is no integer.
    pub fn number(&self) -> (r: Option<F32>)
        ensures
            r == match self@ {
                Fault::CacheThreshold(x) => Some(x),
                Fault::JitterFactor(x) => Some(x),
                _ => None,
            },
    {
        match self {
            ConfigError::CacheThreshold(x) => Some(*x),
            ConfigError::JitterFactor(x) => Some(*x),
            _ => None,
        }
    }

    /// What is told to the operator. `number` is how the number of a fault that
    /// is no integer is written; the other faults do not need it.
    pub fn message(&self, number: &str) -> (r: String)
        ensures
            r@ == self@.message(number@),
    {
        match self {
            ConfigError::NoWorkers => "At least one worker URL is required".to_owned(),
            ConfigError::InvalidWorkerUrl(url) => "Invalid worker URL '".to_owned().concat(url.as_str()).concat(
                "': must start with http:// or https://",
            ),
            ConfigError::ZeroMaxLoad(url) => "max_load must be > 0 for worker '".to_owned().concat(
                url.as_str(),
            ).concat("'"),
            ConfigError::CacheThreshold(_) => "cache.threshold must be 0.0-1.0, got ".to_owned().concat(number),
            ConfigError::JitterFactor(_) => "proxy.jitter_factor must be 0.0-1.0, got ".to_owned().concat(number),
            ConfigError::ServerPort => "server.port must be > 0".to_owned(),
            ConfigError::RemoteMediaUrlPolicy(p) =>
                "proxy.remote_media_url_policy must be 200 or a valid 4xx/5xx HTTP status code, got ".to_owned().concat(
                decimal_string(*p as u64).as_str(),
            ),
            ConfigError::DailyCleanupHour(h) => {
                let head = "cache.daily_cleanup_hour_utc must be -1 (disabled) or 0-23, got ".to_owned();
                if *h < 0 {
                    let digits = decimal_string((-(*h as i64)) as u64);
                    let number = "-".to_owned().concat(digits.as_str());
                    head.concat(number.as_str())
                } else {
                    head.concat(decimal_string(*h as u64).as_str())
                }
            },
        }
    }
}

/// What is wrong with an entry of the list of workers.
pub open spec fn entry_fault(entry: WorkerEntry) -> Option<Fault> {
    if !is_prefix("http://"@, entry.url@) && !is_prefix("https://"@, entry.url@) {
        Some(Fault::InvalidWorkerUrl(entry.url@))
    } else if entry.max_load == 0 {
        Some(Fault::ZeroMaxLoad(entry.url@))
    } else {
        None
    }
}

/// What is wrong with the first bad entry.
pub open spec fn entries_fault(entries: Seq<WorkerEntry>) -> Option<Fault>
    decreases entries.len(),
{
    if entries.len() == 0 {
        None
    } else if entry_fault(entries[0]) is Some {
        entry_fault(entries[0])
    } else {
        entries_fault(entries.drop_first())
    }
}

/// Whether `policy` lets remote media pass, or is a status to refuse it with.
pub open spec fn policy_ok(policy: u16) -> bool {
    policy == 200 || 400 <= policy <= 599
}

impl AppConfig {
    /// The first thing that is wrong with the configuration.
    pub open spec fn fault(&self) -> Option<Fault> {
        if self.workers@.len() == 0 {
            Some(Fault::NoWorkers)
        } else if entries_fault(self.workers@) is Some {
            entries_fault(self.workers@)
        } else if !in_unit_interval(self.cache.threshold) {
            Some(Fault::CacheThreshold(self.cache.threshold))
        } else if !in_unit_interval(self.proxy.jitter_factor) {
            Some(Fault::JitterFactor(self.proxy.jitter_factor))
        } else if self.server.port == 0 {
            Some(Fault::ServerPort)
        } else if !policy_ok(self.proxy.remote_media_url_policy) {
            Some(Fault::RemoteMediaUrlPolicy(self.proxy.remote_media_url_policy))
        } else if self.cache.daily_cleanup_hour_utc > 23 {
            Some(Fault::DailyCleanupHour(self.cache.daily_cleanup_hour_utc))
        } else {
            None
        }
    }

    /// Whether nothing but the workers was said.
    pub open spec fn is_default(&self) -> bool {
        &&& self.server.is_default()
        &&& self.cache.is_default()
        &&& self.health.is_default()
        &&& self.proxy.is_default()
        &&& self.circuit_breaker.is_default()
        &&& self.logging.is_default()
    }

    /// The configuration of a pool for which nothing else was said.
    pub fn with_workers(workers: Vec<WorkerEntry>) -> (r: Self)
        ensures
            r.workers == workers,
            r.is_default(),
    {
        AppConfig {
            server: ServerConfig::default(),
            workers,
            cache: CacheSection::default(),
            health: HealthSection::default(),
            proxy: ProxySection::default(),
            circuit_breaker: CircuitBreakerSection::default(),
            logging: LoggingSection::default(),
        }
    }

    /// Refuses a configuration that cannot be run, with the first reason.
    pub fn validate(&self) -> (r: Result<(), ConfigError>)
        ensures
            r is Ok <==> self.fault() is None,
            r matches Err(e) ==> self.fault() == Some(e@),
    {
        if self.workers.is_empty() {
            return Err(ConfigError::NoWorkers);
        }
        let mut i: usize = 0;
        assert(self.workers@.skip(0) =~= self.workers@);
        while i < self.workers.len()
            invariant
                i <= self.workers@.len(),
                self.workers@.len() > 0,
                entries_fault(self.workers@) == entries_fault(self.workers@.skip(i as int)),
            decreases self.workers.len() - i,
        {
            let entry: &WorkerEntry = &self.workers[i];
            assert(self.workers@.skip(i as int)[0] == *entry);
            assert(self.workers@.skip(i as int).drop_first() =~= self.workers@.skip(i + 1));
            if !starts_with(entry.url.as_str(), "http://") && !starts_with(entry.url.as_str(), "https://") {
                return Err(ConfigError::InvalidWorkerUrl(entry.url.clone()));
            }
            if entry.max_load == 0 {
                return Err(ConfigError::ZeroMaxLoad(entry.url.clone()));
            }
            i += 1;
        }
        if !within_unit_interval(self.cache.threshold) {
            return Err(ConfigError::CacheThreshold(self.cache.threshold));
        }
        if !within_unit_interval(self.proxy.jitter_factor) {
            return Err(ConfigError::JitterFactor(self.proxy.jitter_factor));
        }
        if self.server.port == 0 {
            return Err(ConfigError::ServerPort);
        }
        let policy = self.proxy.remote_media_url_policy;
        if policy != 200 && !(400 <= policy && policy <= 599) {
            return Err(ConfigError::RemoteMediaUrlPolicy(policy));
        }
        if self.cache.daily_cleanup_hour_utc > 23 {
            return Err(ConfigError::DailyCleanupHour(self.cache.daily_cleanup_hour_utc));
        }
        Ok(())
    }

    pub fn cache_config(&self) -> (r: CacheConfig)
        ensures
            r == self.cache.spec_config(),
    {
        CacheConfig {
            cache_threshold: self.cache.threshold,
            match_abs_threshold: self.cache.match_abs_threshold,
            balance_abs_threshold: self.cache.balance_abs_threshold,
            balance_rel_threshold: self.cache.balance_rel_threshold,
            eviction_interval_secs: self.cache.eviction_interval_secs,
            max_tree_size: self.cache.max_tree_size,
            daily_cleanup_hour_utc: self.cache.daily_cleanup_hour_utc,
        }
    }

    pub fn proxy_config(&self) -> (r: ProxyConfig)
        ensures
            r.max_retries == self.proxy.max_retries,
            r.initial_backoff_ms == self.proxy.initial_backoff_ms,
            r.max_backoff_ms == self.proxy.max_backoff_ms,
            r.backoff_multiplier == self.proxy.backoff_multiplier,
            r.jitter_factor == self.proxy.jitter_factor,
            r.request_timeout_secs == self.proxy.request_timeout_secs,
            r.connect_timeout_secs == self.proxy.connect_timeout_secs,
            r.add_routed_peer_header == self.proxy.add_routed_peer_header,
            r.max_body_size == self.proxy.max_body_size,
            r.remote_media_url_policy == self.proxy.remote_media_url_policy,
    {
        ProxyConfig {
            max_retries: self.proxy.max_retries,
            initial_backoff_ms: self.proxy.initial_backoff_ms,
            max_backoff_ms: self.proxy.max_backoff_ms,
            backoff_multiplier: self.proxy.backoff_multiplier,
            jitter_factor: self.proxy.jitter_factor,
            request_timeout_secs: self.proxy.request_timeout_secs,
            connect_timeout_secs: self.proxy.connect_timeout_secs,
            add_routed_peer_header: self.proxy.add_routed_peer_header,
            max_body_size: self.proxy.max_body_size,
            remote_media_url_policy: self.proxy.remote_media_url_policy,
        }
    }

    pub fn health_config(&self) -> (r: HealthConfig)
        ensures
            r.endpoint == self.health.endpoint,
            r.interval_secs == self.health.interval_secs,
            r.failure_threshold == self.health.failure_threshold,
            r.success_threshold == self.health.success_threshold,
    {
        HealthConfig {
            endpoint: self.health.endpoint.clone(),
            interval_secs: self.health.interval_secs,
            failure_threshold: self.health.failure_threshold,
            success_threshold: self.health.success_threshold,
        }
    }

    /// The circuit breaker that every replica gets.
    pub fn breaker_config(&self) -> (r: CircuitBreakerConfig)
        ensures
            r.failure_threshold == self.circuit_breaker.failure_threshold,
            r.success_threshold == self.circuit_breaker.success_threshold,
            r.timeout_secs == self.circuit_breaker.timeout_secs,
    {
        CircuitBreakerConfig {
            failure_threshold: self.circuit_breaker.failure_threshold,
            success_threshold: self.circuit_breaker.success_threshold,
            timeout_secs: self.circuit_breaker.timeout_secs,
        }
    }

    /// The address to listen on.
    pub fn listen_address(&self) -> (r: String)
        ensures
            r@ == self.server.host@ + ":"@ + decimal(self.server.port as nat),
    {
        self.server.host.clone().concat(":").concat(decimal_string(self.server.port as u64).as_str())
    }
}

// ---------------------------------------------------------------------------
// Reloading
// ---------------------------------------------------------------------------

/// A section that a running router cannot take over.
#[derive(Clone, Copy, Debug, PartialEq, Eq, Structural)]
pub enum Section {
    Server,
    Cache,
    Health,
    Proxy,
    CircuitBreaker,
    Logging,
}

impl Section {
    /// The name of the section, as in the configuration file.
    pub open spec fn spec_name(self) -> Seq<char> {
        match self {
            Section::Server => "server"@,
            Section::Cache => "cache"@,
            Section::Health => "health"@,
            Section::Proxy => "proxy"@,
            Section::CircuitBreaker => "circuit_breaker"@,
            Section::Logging => "logging"@,
        }
    }

    /// The name of the section, as in the configuration file.
    pub fn name(self) -> (r: &'static str)
        ensures
            r@ == self.spec_name(),
    {
        match self {
            Section::Server => "server",
            Section::Cache => "cache",
            Section::Health => "health",
            Section::Proxy => "proxy",
            Section::CircuitBreaker => "circuit_breaker",
            Section::Logging => "logging",
        }
    }
}

pub open spec fn same_server(a: ServerConfig, b: ServerConfig) -> bool {
    a.host@ == b.host@ && a.port == b.port
}

pub open spec fn same_cache(a: CacheSection, b: CacheSection) -> bool {
    &&& same_number(a.threshold, b.threshold)
    &&& a.match_abs_threshold == b.match_abs_threshold
    &&& a.balance_abs_threshold == b.balance_abs_threshold
    &&& same_number(a.balance_rel_threshold, b.balance_rel_threshold)
    &&& a.eviction_interval_secs == b.eviction_interval_secs
    &&& a.max_tree_size == b.max_tree_size
    &&& a.daily_cleanup_hour_utc == b.daily_cleanup_hour_utc
}

pub open spec fn same_health(a: HealthSection, b: HealthSection) -> bool {
    &&& a.endpoint@ == b.endpoint@
    &&& a.interval_secs == b.interval_secs
    &&& a.failure_threshold == b.failure_threshold
    &&& a.success_threshold == b.success_threshold
}

pub open spec fn same_proxy(a: ProxySection, b: ProxySection) -> bool {
    &&& a.max_retries == b.max_retries
    &&& a.initial_backoff_ms == b.initial_backoff_ms
    &&& a.max_backoff_ms == b.max_backoff_ms
    &&& same_number(a.backoff_multiplier, b.backoff_multiplier)
    &&& same_number(a.jitter_factor, b.jitter_factor)
    &&& a.request_timeout_secs == b.request_timeout_secs
    &&& a.connect_timeout_secs == b.connect_timeout_secs
    &&& a.add_routed_peer_header == b.add_routed_peer_header
    &&& a.max_body_size == b.max_body_size
    &&& a.remote_media_url_policy == b.remote_media_url_policy
}

pub open spec fn same_breaker(a: CircuitBreakerSection, b: CircuitBreakerSection) -> bool {
    &&& a.failure_threshold == b.failure_threshold
    &&& a.success_threshold == b.success_threshold
    &&& a.timeout_secs == b.timeout_secs
}

pub open spec fn same_logging(a: LoggingSection, b: LoggingSection) -> bool {
    a.level@ == b.level@
}

/// The sections in their order.
pub open spec fn all_sections() -> Seq<Section> {
    seq![
        Section::Server,
        Section::Cache,
        Section::Health,
        Section::Proxy,
        Section::CircuitBreaker,
        Section::Logging,
    ]
}

impl AppConfig {
    /// Whether a section differs between this configuration and a new one.
    pub open spec fn differs(&self, new_config: &AppConfig, section: Section) -> bool {
        match section {
            Section::Server => !same_server(self.server, new_config.server),
            Section::Cache => !same_cache(self.cache, new_config.cache),
            Section::Health => !same_health(self.health, new_config.health),
            Section::Proxy => !same_proxy(self.proxy, new_config.proxy),
            Section::CircuitBreaker => !same_breaker(self.circuit_breaker, new_config.circuit_breaker),
            Section::Logging => !same_logging(self.logging, new_config.logging),
        }
    }

    /// The sections that differ, in their order.
    pub open spec fn changes(&self, new_config: &AppConfig) -> Seq<Section> {
        all_sections().filter(|s: Section| self.differs(new_config, s))
    }

    /// Whether a section differs between this configuration and a new one.
    pub fn section_differs(&self, new_config: &AppConfig, section: Section) -> (r: bool)
        ensures
            r == self.differs(new_config, section),
    {
        match section {
            Section::Server => !(self.server.host == new_config.server.host && self.server.port
                == new_config.server.port),
            Section::Cache => {
                let (a, b) = (&self.cache, &new_config.cache);
                !(number_eq(a.threshold, b.threshold) && a.match_abs_threshold == b.match_abs_threshold
                    && a.balance_abs_threshold == b.balance_abs_threshold && number_eq(
                    a.balance_rel_threshold,
                    b.balance_rel_threshold,
                ) && a.eviction_interval_secs == b.eviction_interval_secs && a.max_tree_size == b.max_tree_size
                    && a.daily_cleanup_hour_utc == b.daily_cleanup_hour_utc)
            },
            Section::Health => {
                let (a, b) = (&self.health, &new_config.health);
                !(a.endpoint == b.endpoint && a.interval_secs == b.interval_secs && a.failure_threshold
                    == b.failure_threshold && a.success_threshold == b.success_threshold)
            },
            Section::Proxy => {
                let (a, b) = (&self.proxy, &new_config.proxy);
                !(a.max_retries == b.max_retries && a.initial_backoff_ms == b.initial_backoff_ms
                    && a.max_backoff_ms == b.max_backoff_ms && number_eq(
                    a.backoff_multiplier,
                    b.backoff_multiplier,
                ) && number_eq(a.jitter_factor, b.jitter_factor) && a.request_timeout_secs
                    == b.request_timeout_secs && a.connect_timeout_secs == b.connect_timeout_secs
                    && a.add_routed_peer_header == b.add_routed_peer_header && a.max_body_size
                    == b.max_body_size && a.remote_media_url_policy == b.remote_media_url_policy)
            },
            Section::CircuitBreaker => {
                let (a, b) = (&self.circuit_breaker, &new_config.circuit_breaker);
                !(a.failure_threshold == b.failure_threshold && a.success_threshold == b.success_threshold
                    && a.timeout_secs == b.timeout_secs)
            },
            Section::Logging => !(self.logging.level == new_config.logging.level),
        }
    }

    /// A running router takes over a new list of workers and nothing else:
    /// fails with the sections that differ, in their order, if any does.
    pub fn validate_reload_compatibility(&self, new_config: &AppConfig) -> (r: Result<(), Vec<Section>>)
        ensures
            r is Ok <==> self.changes(new_config).len() == 0,
            r matches Err(changed) ==> changed@ == self.changes(new_config),
    {
        let mut changed: Vec<Section> = Vec::new();
        let sections: [Section; 6] = [
            Section::Server,
            Section::Cache,
            Section::Health,
            Section::Proxy,
            Section::CircuitBreaker,
            Section::Logging,
        ];
        let ghost pred = |s: Section| self.differs(new_config, s);
        assert(sections@ =~= all_sections());
        let mut i: usize = 0;
        assert(all_sections().take(0).filter(pred) =~= Seq::<Section>::empty()) by {
            reveal(Seq::filter);
        }
        while i < 6
            invariant
                i <= 6,
                sections@ == all_sections(),
                pred == (|s: Section| self.differs(new_config, s)),
                changed@ == all_sections().take(i as int).filter(pred),
            decreases 6 - i,
        {
            proof {
                reveal(Seq::filter);
                assert(all_sections().take(i + 1).drop_last() =~= all_sections().take(i as int));
                assert(all_sections().take(i + 1).last() == sections@[i as int]);
            }
            if self.section_differs(new_config, sections[i]) {
                changed.push(sections[i]);
            }
            i += 1;
        }
        assert(all_sections().take(6) =~= all_sections());
        if changed.is_empty() {
            Ok(())
        } else {
            Err(changed)
        }
    }
}

/// A section that differs, with how it is written before and after.
#[derive(Debug)]
pub struct SectionChange {
    pub section: Section,
    pub old: String,
    pub new: String,
}

/// The lines that name the sections that differ.
pub open spec fn change_list(changes: Seq<SectionChange>) -> Seq<char>
    decreases changes.len(),
{
    if changes.len() == 0 {
        Seq::empty()
    } else {
        let last = changes.last();
        change_list(changes.drop_last()) + "\n  - "@ + last.section.spec_name() + " config changed (old: "@ + last.old@
            + ", new: "@ + last.new@ + ")"@
    }
}

/// Says that a reload was refused, and how each section differs.
pub fn reload_rejection(changes: &Vec<SectionChange>) -> (r: String)
    ensures
        r@ == "Config reload rejected: only worker list changes are supported.\nChanges detected:"@
            + change_list(changes@),
{
    let mut list = String::new();
    let mut i: usize = 0;
    assert(changes@.take(0) =~= Seq::empty());
    while i < changes.len()
        invariant
            i <= changes@.len(),
            list@ == change_list(changes@.take(i as int)),
        decreases changes.len() - i,
    {
        proof {
            let t = changes@.take(i + 1);
            assert(t.drop_last() =~= changes@.take(i as int));
            assert(t.last() == changes@[i as int]);
        }
        list.append("\n  - ");
        list.append(changes[i].section.name());
        list.append(" config changed (old: ");
        list.append(changes[i].old.as_str());
        list.append(", new: ");
        list.append(changes[i].new.as_str());
        list.append(")");
        i += 1;
    }
    assert(changes@.take(changes@.len() as int) =~= changes@);
    "Config reload rejected: only worker list changes are supported.\nChanges detected:".to_owned().concat(
        list.as_str(),
    )
}

// ---------------------------------------------------------------------------
// Laws
// ---------------------------------------------------------------------------

/// Every entry of a valid configuration can be used: there is at least one, its
/// address is one of the web, and it may carry load.
pub proof fn lemma_valid_entries(config: AppConfig, i: int)
    requires
        config.fault() is None,
        0 <= i < config.workers@.len(),
    ensures
        config.workers@.len() > 0,
        config.workers@[i].max_load > 0,
        is_prefix("http://"@, config.workers@[i].url@) || is_prefix("https://"@, config.workers@[i].url@),
{
    lemma_entries_fault(config.workers@, i);
}

proof fn lemma_entries_fault(entries: Seq<WorkerEntry>, i: int)
    requires
        entries_fault(entries) is None,
        0 <= i < entries.len(),
    ensures
        entry_fault(entries[i]) is None,
    decreases entries.len(),
{
    if i > 0 {
        lemma_entries_fault(entries.drop_first(), i - 1);
    }
}

/// Only the workers are required: with good ones, everything else may be left
/// to the defaults.
pub proof fn lemma_defaults_are_valid(config: AppConfig)
    requires
        config.is_default(),
        config.workers@.len() > 0,
        forall|i: int| 0 <= i < config.workers@.len() ==> entry_fault(#[trigger] config.workers@[i]) is None,
    ensures
        config.fault() is None,
{
    lemma_entries_valid(config.workers@);
    lemma_up_to_one(config.cache.threshold);
    lemma_up_to_one(config.proxy.jitter_factor);
}

proof fn lemma_entries_valid(entries: Seq<WorkerEntry>)
    requires
        forall|i: int| 0 <= i < entries.len() ==> entry_fault(#[trigger] entries[i]) is None,
    ensures
        entries_fault(entries) is None,
    decreases entries.len(),
{
    if entries.len() > 0 {
        assert(entry_fault(entries[0]) is None);
        assert forall|i: int| 0 <= i < entries.len() - 1 implies entry_fault(#[trigger] entries.drop_first()[i])
            is None by {
            assert(entry_fault(entries[i + 1]) is None);
        }
        lemma_entries_valid(entries.drop_first());
    }
}

/// A reload is accepted exactly if no section differs, whatever happens to the
/// list of workers.
pub proof fn lemma_only_workers_change(current: AppConfig, new_config: AppConfig, workers: Vec<WorkerEntry>)
    ensures
        current.changes(&new_config).len() == 0 <==> forall|s: Section| !current.differs(&new_config, s),
        current.changes(&(AppConfig { workers, ..new_config })) == current.changes(&new_config),
{
    let pred = |s: Section| current.differs(&new_config, s);
    let other = AppConfig { workers, ..new_config };
    assert(current.changes(&other) =~= current.changes(&new_config)) by {
        assert forall|s: Section| #[trigger] current.differs(&other, s) == current.differs(&new_config, s) by {}
        lemma_filter_same(
            all_sections(),
            |s: Section| current.differs(&other, s),
            |s: Section| current.differs(&new_config, s),
        );
    }
    assert forall|s: Section| current.changes(&new_config).len() == 0 implies !current.differs(&new_config, s) by {
        let all = all_sections();
        assert(all.contains(s)) by {
            let i: int = match s {
                Section::Server => 0,
                Section::Cache => 1,
                Section::Health => 2,
                Section::Proxy => 3,
                Section::CircuitBreaker => 4,
                Section::Logging => 5,
            };
            assert(all[i] == s);
        }
        if pred(s) {
            let i = choose|i: int| 0 <= i < all.len() && all[i] == s;
            broadcast use vstd::seq_lib::group_filter_ensures;

            assert(all.filter(pred).contains(all[i]));
        }
    }
    if forall|s: Section| !current.differs(&new_config, s) {
        let f = all_sections().filter(pred);
        broadcast use vstd::seq_lib::group_filter_ensures;

        if f.len() > 0 {
            assert(pred(f[0]));
        }
    }
}

proof fn lemma_filter_same(s: Seq<Section>, p: spec_fn(Section) -> bool, q: spec_fn(Section) -> bool)
    requires
        forall|x: Section| #[trigger] p(x) == q(x),
    ensures
        s.filter(p) == s.filter(q),
    decreases s.len(),
{
    reveal(Seq::filter);
    if s.len() > 0 {
        lemma_filter_same(s.drop_last(), p, q);
    }
}

/// Whether an address is one of the web: it begins like one, letter by letter.
pub open spec fn web_address(url: Seq<char>) -> bool {
    ||| url.len() >= 7 && url.take(7) == seq!['h', 't', 't', 'p', ':', '/', '/']
    ||| url.len() >= 8 && url.take(8) == seq!['h', 't', 't', 'p', 's', ':', '/', '/']
}

/// Whether a bit pattern stands for a number from zero to one: up to the pattern
/// of one, or the negative zero.
pub open spec fn zero_to_one(x: F32) -> bool {
    x.bits <= 0x3f80_0000 || x.bits == 0x8000_0000
}

/// Whether two bit patterns stand for the same number: the same pattern of a
/// number, or two zeros.
pub open spec fn equal_numbers(a: F32, b: F32) -> bool {
    ||| a.bits == b.bits && a.bits % 0x8000_0000 <= 0x7f80_0000
    ||| a.bits % 0x8000_0000 == 0 && b.bits % 0x8000_0000 == 0
}

proof fn lemma_web_address(url: Seq<char>)
    ensures
        web_address(url) <==> is_prefix("http://"@, url) || is_prefix("https://"@, url),
{
    reveal_strlit("http://");
    reveal_strlit("https://");
    assert("http://"@ =~= seq!['h', 't', 't', 'p', ':', '/', '/']);
    assert("https://"@ =~= seq!['h', 't', 't', 'p', 's', ':', '/', '/']);
}

/// Whether there is a worker, every worker has an address of the web and may
/// carry load, the two fractions lie between zero and one, the port is not zero,
/// the policy on remote media is to let pass or an error status, and the hour of
/// the cleanup is one of the day or negative.
pub open spec fn acceptable(config: AppConfig) -> bool {
    &&& good_entries(config)
    &&& zero_to_one(config.cache.threshold)
    &&& zero_to_one(config.proxy.jitter_factor)
    &&& config.server.port != 0
    &&& config.proxy.remote_media_url_policy == 200 || 400 <= config.proxy.remote_media_url_policy < 600
    &&& config.cache.daily_cleanup_hour_utc < 24
}

/// Nothing is wrong with a configuration exactly if it is acceptable.
pub proof fn lemma_acceptable(config: AppConfig)
    ensures
        config.fault() is None <==> acceptable(config),
{
    lemma_unit_interval_bits(config.cache.threshold);
    lemma_unit_interval_bits(config.proxy.jitter_factor);
    let workers = config.workers@;
    if entries_fault(workers) is None {
        assert forall|i: int| 0 <= i < workers.len() implies (#[trigger] workers[i]).max_load > 0 && web_address(
            workers[i].url@,
        ) by {
            lemma_entries_fault(workers, i);
            lemma_web_address(workers[i].url@);
        }
    }
    if good_entries(config) {
        assert forall|i: int| 0 <= i < workers.len() implies entry_fault(#[trigger] workers[i]) is None by {
            lemma_web_address(workers[i].url@);
        }
        lemma_entries_valid(workers);
    }
}

/// A configuration is accepted exactly if it is acceptable.
pub proof fn lemma_accepted(config: &AppConfig, r: Result<(), ConfigError>)
    requires
        call_ensures(AppConfig::validate, (config,), r),
    ensures
        r is Ok <==> acceptable(*config),
{
    lemma_acceptable(*config);
}

/// What is told of a configuration that is refused is true of it: nothing else
/// is named than what is wrong.
pub proof fn lemma_refused_for_a_reason(config: &AppConfig, r: Result<(), ConfigError>)
    requires
        call_ensures(AppConfig::validate, (config,), r),
    ensures
        r matches Err(e) ==> match e {
            ConfigError::NoWorkers => config.workers@.len() == 0,
            ConfigError::InvalidWorkerUrl(url) => exists|i: int|
                bad_entry(config.workers@, i) && config.workers@[i].url@ == url@ && !web_address(url@),
            ConfigError::ZeroMaxLoad(url) => exists|i: int|
                bad_entry(config.workers@, i) && config.workers@[i].url@ == url@ && web_address(url@)
                    && config.workers@[i].max_load == 0,
            ConfigError::CacheThreshold(x) => x == config.cache.threshold && !zero_to_one(x) && good_entries(*config),
            ConfigError::JitterFactor(x) => x == config.proxy.jitter_factor && !zero_to_one(x) && good_entries(*config)
                && zero_to_one(config.cache.threshold),
            ConfigError::ServerPort => config.server.port == 0 && good_entries(*config) && zero_to_one(
                config.cache.threshold,
            ) && zero_to_one(config.proxy.jitter_factor),
            ConfigError::RemoteMediaUrlPolicy(p) => p == config.proxy.remote_media_url_policy && p != 200 && (p < 400
                || p > 599) && good_entries(*config) && zero_to_one(config.cache.threshold) && zero_to_one(
                config.proxy.jitter_factor,
            ) && config.server.port > 0,
            ConfigError::DailyCleanupHour(h) => h == config.cache.daily_cleanup_hour_utc && h >= 24 && good_entries(
                *config,
            ) && zero_to_one(config.cache.threshold) && zero_to_one(config.proxy.jitter_factor)
                && config.server.port > 0 && (config.proxy.remote_media_url_policy == 200 || 400
                <= config.proxy.remote_media_url_policy < 600),
        },
{
    lemma_unit_interval_bits(config.cache.threshold);
    lemma_unit_interval_bits(config.proxy.jitter_factor);
    let workers = config.workers@;
    if entries_fault(workers) is Some {
        let i = lemma_first_bad_entry(workers);
        lemma_web_address(workers[i].url@);
        assert(bad_entry(workers, i)) by {
            assert forall|j: int| 0 <= j < i implies (#[trigger] workers[j]).max_load > 0 && web_address(
                workers[j].url@,
            ) by {
                assert(entry_fault(workers[j]) is None);
                lemma_web_address(workers[j].url@);
            }
        }
    } else {
        assert forall|i: int| 0 <= i < workers.len() implies (#[trigger] workers[i]).max_load > 0 && web_address(
            workers[i].url@,
        ) by {
            lemma_entries_fault(workers, i);
            lemma_web_address(workers[i].url@);
        }
    }
}

/// Whether the `i`-th worker is the first that cannot be used.
pub open spec fn bad_entry(entries: Seq<WorkerEntry>, i: int) -> bool {
    &&& 0 <= i < entries.len()
    &&& entries[i].max_load == 0 || !web_address(entries[i].url@)
    &&& forall|j: int| 0 <= j < i ==> (#[trigger] entries[j]).max_load > 0 && web_address(entries[j].url@)
}

/// Whether there are workers, and all of them can be used.
pub open spec fn good_entries(config: AppConfig) -> bool {
    &&& config.workers@.len() > 0
    &&& forall|i: int|
        0 <= i < config.workers@.len() ==> (#[trigger] config.workers@[i]).max_load > 0 && web_address(
            config.workers@[i].url@,
        )
}

proof fn lemma_first_bad_entry(entries: Seq<WorkerEntry>) -> (i: int)
    requires
        entries_fault(entries) is Some,
    ensures
        0 <= i < entries.len(),
        entries_fault(entries) == entry_fault(entries[i]),
        forall|j: int| 0 <= j < i ==> entry_fault(#[trigger] entries[j]) is None,
    decreases entries.len(),
{
    if entry_fault(entries[0]) is Some {
        0
    } else {
        let k = lemma_first_bad_entry(entries.drop_first());
        assert forall|j: int| 0 <= j < k + 1 implies entry_fault(#[trigger] entries[j]) is None by {
            if j > 0 {
                assert(entry_fault(entries.drop_first()[j - 1]) is None);
            }
        }
        k + 1
    }
}

/// Whether two configurations agree in everything but the workers, field by
/// field: texts, integers and switches are equal, and numbers are equal as
/// numbers.
pub open spec fn same_but_workers(a: AppConfig, b: AppConfig) -> bool {
    &&& a.server.host@ == b.server.host@
    &&& a.server.port == b.server.port
    &&& equal_numbers(a.cache.threshold, b.cache.threshold)
    &&& a.cache.match_abs_threshold == b.cache.match_abs_threshold
    &&& a.cache.balance_abs_threshold == b.cache.balance_abs_threshold
    &&& equal_numbers(a.cache.balance_rel_threshold, b.cache.balance_rel_threshold)
    &&& a.cache.eviction_interval_secs == b.cache.eviction_interval_secs
    &&& a.cache.max_tree_size == b.cache.max_tree_size
    &&& a.cache.daily_cleanup_hour_utc == b.cache.daily_cleanup_hour_utc
    &&& a.health.endpoint@ == b.health.endpoint@
    &&& a.health.interval_secs == b.health.interval_secs
    &&& a.health.failure_threshold == b.health.failure_threshold
    &&& a.health.success_threshold == b.health.success_threshold
    &&& a.proxy.max_retries == b.proxy.max_retries
    &&& a.proxy.initial_backoff_ms == b.proxy.initial_backoff_ms
    &&& a.proxy.max_backoff_ms == b.proxy.max_backoff_ms
    &&& equal_numbers(a.proxy.backoff_multiplier, b.proxy.backoff_multiplier)
    &&& equal_numbers(a.proxy.jitter_factor, b.proxy.jitter_factor)
    &&& a.proxy.request_timeout_secs == b.proxy.request_timeout_secs
    &&& a.proxy.connect_timeout_secs == b.proxy.connect_timeout_secs
    &&& a.proxy.add_routed_peer_header == b.proxy.add_routed_peer_header
    &&& a.proxy.max_body_size == b.proxy.max_body_size
    &&& a.proxy.remote_media_url_policy == b.proxy.remote_media_url_policy
    &&& a.circuit_breaker.failure_threshold == b.circuit_breaker.failure_threshold
    &&& a.circuit_breaker.success_threshold == b.circuit_breaker.success_threshold
    &&& a.circuit_breaker.timeout_secs == b.circuit_breaker.timeout_secs
    &&& a.logging.level@ == b.logging.level@
}

proof fn lemma_sections_equal(a: AppConfig, b: AppConfig)
    ensures
        same_but_workers(a, b) <==> forall|s: Section| !a.differs(&b, s),
{
    lemma_same_number_bits(a.cache.threshold, b.cache.threshold);
    lemma_same_number_bits(a.cache.balance_rel_threshold, b.cache.balance_rel_threshold);
    lemma_same_number_bits(a.proxy.backoff_multiplier, b.proxy.backoff_multiplier);
    lemma_same_number_bits(a.proxy.jitter_factor, b.proxy.jitter_factor);
    if forall|s: Section| !a.differs(&b, s) {
        assert(!a.differs(&b, Section::Server));
        assert(!a.differs(&b, Section::Cache));
        assert(!a.differs(&b, Section::Health));
        assert(!a.differs(&b, Section::Proxy));
        assert(!a.differs(&b, Section::CircuitBreaker));
        assert(!a.differs(&b, Section::Logging));
    }
}

/// Nothing but the workers may change while the router runs.
pub proof fn lemma_changes_are_all_fields(a: AppConfig, b: AppConfig)
    ensures
        a.changes(&b).len() == 0 <==> same_but_workers(a, b),
{
    lemma_only_workers_change(a, b, b.workers);
    lemma_sections_equal(a, b);
}

/// A new configuration is compatible exactly if every field of every section but
/// the workers is what it was.
pub proof fn lemma_compatible(current: &AppConfig, new_config: &AppConfig, r: Result<(), Vec<Section>>)
    requires
        call_ensures(AppConfig::validate_reload_compatibility, (current, new_config), r),
    ensures
        r is Ok <==> same_but_workers(*current, *new_config),
        r matches Err(changed) ==> changed@.len() > 0,
{
    lemma_changes_are_all_fields(*current, *new_config);
}

/// The place of a section in the order in which changes are told.
pub open spec fn section_rank(s: Section) -> int {
    match s {
        Section::Server => 0,
        Section::Cache => 1,
        Section::Health => 2,
        Section::Proxy => 3,
        Section::CircuitBreaker => 4,
        Section::Logging => 5,
    }
}

/// The sections that are told are those that differ, each once, in their order.
pub proof fn lemma_told_sections(
    current: &AppConfig,
    new_config: &AppConfig,
    r: Result<(), Vec<Section>>,
    s: Section,
    differs: bool,
)
    requires
        call_ensures(AppConfig::validate_reload_compatibility, (current, new_config), r),
        call_ensures(AppConfig::section_differs, (current, new_config, s), differs),
    ensures
        r matches Err(changed) ==> (changed@.contains(s) <==> differs),
        r matches Err(changed) ==> forall|i: int, j: int|
            0 <= i < j < changed@.len() ==> section_rank(#[trigger] changed@[i]) < section_rank(#[trigger] changed@[j]),
        r is Ok ==> !differs,
{
    let pred = |x: Section| current.differs(new_config, x);
    let all = all_sections();
    lemma_only_workers_change(*current, *new_config, new_config.workers);
    assert(all[section_rank(s)] == s);
    lemma_filter_ranks(all, pred, s);
}

proof fn lemma_filter_ranks(all: Seq<Section>, pred: spec_fn(Section) -> bool, s: Section)
    requires
        forall|i: int, j: int| 0 <= i < j < all.len() ==> section_rank(#[trigger] all[i]) < section_rank(#[trigger] all[j]),
    ensures
        all.filter(pred).contains(s) <==> all.contains(s) && pred(s),
        forall|i: int, j: int|
            0 <= i < j < all.filter(pred).len() ==> section_rank(#[trigger] all.filter(pred)[i]) < section_rank(
                #[trigger] all.filter(pred)[j],
            ),
    decreases all.len(),
{
    reveal(Seq::filter);
    if all.len() > 0 {
        let head = all.drop_last();
        assert forall|i: int, j: int| 0 <= i < j < head.len() implies section_rank(#[trigger] head[i]) < section_rank(
            #[trigger] head[j],
        ) by {
            assert(section_rank(all[i]) < section_rank(all[j]));
        }
        lemma_filter_ranks(head, pred, s);
        let f = all.filter(pred);
        let g = head.filter(pred);
        assert(all.contains(s) <==> head.contains(s) || all.last() == s) by {
            if all.contains(s) {
                let i = choose|i: int| 0 <= i < all.len() && all[i] == s;
                if i < head.len() {
                    assert(head[i] == s);
                }
            }
            if head.contains(s) {
                let i = choose|i: int| 0 <= i < head.len() && head[i] == s;
                assert(all[i] == s);
            }
            if all.last() == s {
                assert(all[all.len() - 1] == s);
            }
        }
        if pred(all.last()) {
            assert(f =~= g.push(all.last()));
            assert(f.contains(s) <==> g.contains(s) || all.last() == s) by {
                if f.contains(s) {
                    let i = choose|i: int| 0 <= i < f.len() && f[i] == s;
                    if i < g.len() {
                        assert(g[i] == s);
                    }
                }
                if g.contains(s) {
                    let i = choose|i: int| 0 <= i < g.len() && g[i] == s;
                    assert(f[i] == s);
                }
                assert(f[g.len() as int] == all.last());
            }
            assert forall|i: int, j: int| 0 <= i < j < f.len() implies section_rank(#[trigger] f[i]) < section_rank(
                #[trigger] f[j],
            ) by {
                if j == g.len() {
                    lemma_filter_ranks(head, pred, f[i]);
                    assert(g[i] == f[i]);
                    assert(g.contains(f[i]));
                    let k = choose|k: int| 0 <= k < head.len() && head[k] == f[i];
                    assert(section_rank(all[k]) < section_rank(all[all.len() - 1]));
                } else {
                    assert(section_rank(g[i]) < section_rank(g[j]));
                }
            }
        } else {
            assert(f =~= g);
        }
    }
}

/// A section differs exactly if one of its fields does.
pub proof fn lemma_section_fields(
    a: &AppConfig,
    b: &AppConfig,
    server: bool,
    cache: bool,
    health: bool,
    proxy: bool,
    breaker: bool,
    logging: bool,
)
    requires
        call_ensures(AppConfig::section_differs, (a, b, Section::Server), server),
        call_ensures(AppConfig::section_differs, (a, b, Section::Cache), cache),
        call_ensures(AppConfig::section_differs, (a, b, Section::Health), health),
        call_ensures(AppConfig::section_differs, (a, b, Section::Proxy), proxy),
        call_ensures(AppConfig::section_differs, (a, b, Section::CircuitBreaker), breaker),
        call_ensures(AppConfig::section_differs, (a, b, Section::Logging), logging),
    ensures
        !server <==> a.server.host@ == b.server.host@ && a.server.port == b.server.port,
        !cache <==> {
            &&& equal_numbers(a.cache.threshold, b.cache.threshold)
            &&& a.cache.match_abs_threshold == b.cache.match_abs_threshold
            &&& a.cache.balance_abs_threshold == b.cache.balance_abs_threshold
            &&& equal_numbers(a.cache.balance_rel_threshold, b.cache.balance_rel_threshold)
            &&& a.cache.eviction_interval_secs == b.cache.eviction_interval_secs
            &&& a.cache.max_tree_size == b.cache.max_tree_size
            &&& a.cache.daily_cleanup_hour_utc == b.cache.daily_cleanup_hour_utc
        },
        !health <==> {
            &&& a.health.endpoint@ == b.health.endpoint@
            &&& a.health.interval_secs == b.health.interval_secs
            &&& a.health.failure_threshold == b.health.failure_threshold
            &&& a.health.success_threshold == b.health.success_threshold
        },
        !proxy <==> {
            &&& a.proxy.max_retries == b.proxy.max_retries
            &&& a.proxy.initial_backoff_ms == b.proxy.initial_backoff_ms
            &&& a.proxy.max_backoff_ms == b.proxy.max_backoff_ms
            &&& equal_numbers(a.proxy.backoff_multiplier, b.proxy.backoff_multiplier)
            &&& equal_numbers(a.proxy.jitter_factor, b.proxy.jitter_factor)
            &&& a.proxy.request_timeout_secs == b.proxy.request_timeout_secs
            &&& a.proxy.connect_timeout_secs == b.proxy.connect_timeout_secs
            &&& a.proxy.add_routed_peer_header == b.proxy.add_routed_peer_header
            &&& a.proxy.max_body_size == b.proxy.max_body_size
            &&& a.proxy.remote_media_url_policy == b.proxy.remote_media_url_policy
        },
        !breaker <==> {
            &&& a.circuit_breaker.failure_threshold == b.circuit_breaker.failure_threshold
            &&& a.circuit_breaker.success_threshold == b.circuit_breaker.success_threshold
            &&& a.circuit_breaker.timeout_secs == b.circuit_breaker.timeout_secs
        },
        !logging <==> a.logging.level@ == b.logging.level@,
{
    lemma_same_number_bits(a.cache.threshold, b.cache.threshold);
    lemma_same_number_bits(a.cache.balance_rel_threshold, b.cache.balance_rel_threshold);
    lemma_same_number_bits(a.proxy.backoff_multiplier, b.proxy.backoff_multiplier);
    lemma_same_number_bits(a.proxy.jitter_factor, b.proxy.jitter_factor);
}

/// The defaults, field by field.
pub proof fn lemma_defaults(workers: Vec<WorkerEntry>, c: AppConfig, max_load: usize, penalty: usize)
    requires
        call_ensures(AppConfig::with_workers, (workers,), c),
        call_ensures(default_max_load, (), max_load),
        call_ensures(default_load_penalty, (), penalty),
    ensures
        c.workers == workers,
        c.server.host@ == seq!['0', '.', '0', '.', '0', '.', '0'],
        c.server.port == 6700,
        c.cache.threshold.bits == 0x3e99_999a,
        c.cache.match_abs_threshold == 8192,
        c.cache.balance_abs_threshold == 5,
        c.cache.balance_rel_threshold.bits == 0x3fa0_0000,
        c.cache.eviction_interval_secs == 60,
        c.cache.max_tree_size == 1048576,
        c.cache.daily_cleanup_hour_utc == -1,
        c.health.endpoint@ == seq!['/', 'v', '1', '/', 'm', 'o', 'd', 'e', 'l', 's'],
        c.health.interval_secs == 10,
        c.health.failure_threshold == 3,
        c.health.success_threshold == 1,
        c.proxy.max_retries == 1,
        c.proxy.initial_backoff_ms == 100,
        c.proxy.max_backoff_ms == 5000,
        c.proxy.backoff_multiplier.bits == 0x4000_0000,
        c.proxy.jitter_factor.bits == 0x3e80_0000,
        c.proxy.request_timeout_secs == 10000,
        c.proxy.connect_timeout_secs == 2,
        !c.proxy.add_routed_peer_header,
        c.proxy.max_body_size == 10485760,
        c.proxy.remote_media_url_policy == 200,
        c.circuit_breaker.failure_threshold == 5,
        c.circuit_breaker.success_threshold == 2,
        c.circuit_breaker.timeout_secs == 30,
        c.logging.level@ == seq!['i', 'n', 'f', 'o'],
        max_load == 20,
        penalty == 0,
{
    reveal_strlit("0.0.0.0");
    reveal_strlit("/v1/models");
    reveal_strlit("info");
    assert("0.0.0.0"@ =~= seq!['0', '.', '0', '.', '0', '.', '0']);
    assert("/v1/models"@ =~= seq!['/', 'v', '1', '/', 'm', 'o', 'd', 'e', 'l', 's']);
    assert("info"@ =~= seq!['i', 'n', 'f', 'o']);
}

/// A section that is left out is the one of a configuration that names workers
/// only.
pub proof fn lemma_default_sections(
    c: AppConfig,
    workers: Vec<WorkerEntry>,
    server: ServerConfig,
    cache: CacheSection,
    health: HealthSection,
    proxy: ProxySection,
    breaker: CircuitBreakerSection,
    logging: LoggingSection,
)
    requires
        call_ensures(AppConfig::with_workers, (workers,), c),
        call_ensures(ServerConfig::default, (), server),
        call_ensures(CacheSection::default, (), cache),
        call_ensures(HealthSection::default, (), health),
        call_ensures(ProxySection::default, (), proxy),
        call_ensures(CircuitBreakerSection::default, (), breaker),
        call_ensures(LoggingSection::default, (), logging),
    ensures
        same_but_workers(c, AppConfig { server, workers, cache, health, proxy, circuit_breaker: breaker, logging }),
{
}

/// The parts of the router are given what the configuration says, field by
/// field.
pub proof fn lemma_handed_on(
    c: &AppConfig,
    cache: CacheConfig,
    proxy: ProxyConfig,
    health: HealthConfig,
    breaker: CircuitBreakerConfig,
)
    requires
        call_ensures(AppConfig::cache_config, (c,), cache),
        call_ensures(AppConfig::proxy_config, (c,), proxy),
        call_ensures(AppConfig::health_config, (c,), health),
        call_ensures(AppConfig::breaker_config, (c,), breaker),
    ensures
        cache.cache_threshold == c.cache.threshold,
        cache.match_abs_threshold == c.cache.match_abs_threshold,
        cache.balance_abs_threshold == c.cache.balance_abs_threshold,
        cache.balance_rel_threshold == c.cache.balance_rel_threshold,
        cache.eviction_interval_secs == c.cache.eviction_interval_secs,
        cache.max_tree_size == c.cache.max_tree_size,
        cache.daily_cleanup_hour_utc == c.cache.daily_cleanup_hour_utc,
        proxy.max_retries == c.proxy.max_retries,
        proxy.initial_backoff_ms == c.proxy.initial_backoff_ms,
        proxy.max_backoff_ms == c.proxy.max_backoff_ms,
        proxy.backoff_multiplier == c.proxy.backoff_multiplier,
        proxy.jitter_factor == c.proxy.jitter_factor,
        proxy.request_timeout_secs == c.proxy.request_timeout_secs,
        proxy.connect_timeout_secs == c.proxy.connect_timeout_secs,
        proxy.add_routed_peer_header == c.proxy.add_routed_peer_header,
        proxy.max_body_size == c.proxy.max_body_size,
        proxy.remote_media_url_policy == c.proxy.remote_media_url_policy,
        health.endpoint@ == c.health.endpoint@,
        health.interval_secs == c.health.interval_secs,
        health.failure_threshold == c.health.failure_threshold,
        health.success_threshold == c.health.success_threshold,
        breaker.failure_threshold == c.circuit_breaker.failure_threshold,
        breaker.success_threshold == c.circuit_breaker.success_threshold,
        breaker.timeout_secs == c.circuit_breaker.timeout_secs,
{
}

/// The router listens on its host and port.
pub proof fn lemma_listens(c: &AppConfig, r: String)
    requires
        call_ensures(AppConfig::listen_address, (c,), r),
    ensures
        r@ == c.server.host@ + seq![':'] + decimal(c.server.port as nat),
{
    reveal_strlit(":");
    assert(":"@ =~= seq![':']);
}

/// The files that the command line names, or else the default one.
pub proof fn lemma_command_line<P>(config: Vec<P>, default_config: P, check: bool, r: CliArgs<P>)
    requires
        call_ensures(CliArgs::<P>::new, (config, default_config, check), r),
    ensures
        r.config_check == check,
        config@.len() > 0 ==> r.config@ == config@,
        config@.len() == 0 ==> r.config@.len() == 1 && r.config@[0] == default_config,
{
}

/// What the operator is told of each fault, word by word.
pub proof fn lemma_fault_messages(e: &ConfigError, number: &str, r: String, x: Option<F32>)
    requires
        call_ensures(ConfigError::message, (e, number), r),
        call_ensures(ConfigError::number, (e,), x),
    ensures
        match *e {
            ConfigError::NoWorkers => r@ == "At least one worker URL is required"@ && x is None,
            ConfigError::InvalidWorkerUrl(url) => r@ == "Invalid worker URL '"@ + url@
                + "': must start with http:// or https://"@ && x is None,
            ConfigError::ZeroMaxLoad(url) => r@ == "max_load must be > 0 for worker '"@ + url@ + "'"@ && x is None,
            ConfigError::CacheThreshold(t) => r@ == "cache.threshold must be 0.0-1.0, got "@ + number@ && x == Some(t),
            ConfigError::JitterFactor(t) => r@ == "proxy.jitter_factor must be 0.0-1.0, got "@ + number@ && x == Some(t),
            ConfigError::ServerPort => r@ == "server.port must be > 0"@ && x is None,
            ConfigError::RemoteMediaUrlPolicy(p) => r@
                == "proxy.remote_media_url_policy must be 200 or a valid 4xx/5xx HTTP status code, got "@ + decimal(
                p as nat,
            ) && x is None,
            ConfigError::DailyCleanupHour(h) => r@
                == "cache.daily_cleanup_hour_utc must be -1 (disabled) or 0-23, got "@ + (if h < 0 {
                "-"@ + decimal((-h) as nat)
            } else {
                decimal(h as nat)
            }) && x is None,
        },
{
}

/// The names of the sections, as in a configuration file.
pub proof fn lemma_section_names(s: Section, r: &'static str)
    requires
        call_ensures(Section::name, (s,), r),
    ensures
        s is Server ==> r@ == "server"@,
        s is Cache ==> r@ == "cache"@,
        s is Health ==> r@ == "health"@,
        s is Proxy ==> r@ == "proxy"@,
        s is CircuitBreaker ==> r@ == "circuit_breaker"@,
        s is Logging ==> r@ == "logging"@,
{
}

/// A refusal names every section that differs, one line for each, in the order
/// given, with how it was and how it would be.
pub proof fn lemma_rejection(
    changes: &Vec<SectionChange>,
    more: &Vec<SectionChange>,
    c: SectionChange,
    name: &'static str,
    r: String,
    s: String,
)
    requires
        more@ == changes@.push(c),
        call_ensures(Section::name, (c.section,), name),
        call_ensures(reload_rejection, (changes,), r),
        call_ensures(reload_rejection, (more,), s),
    ensures
        s@ == r@ + "\n  - "@ + name@ + " config changed (old: "@ + c.old@ + ", new: "@ + c.new@ + ")"@,
        changes@.len() == 0 ==> r@
            == "Config reload rejected: only worker list changes are supported.\nChanges detected:"@,
{
    assert(more@.drop_last() =~= changes@);
    let head = "Config reload rejected: only worker list changes are supported.\nChanges detected:"@;
    assert(head + Seq::<char>::empty() =~= head);
    assert(s@ =~= r@ + "\n  - "@ + name@ + " config changed (old: "@ + c.old@ + ", new: "@ + c.new@ + ")"@);
}

} // verus!
