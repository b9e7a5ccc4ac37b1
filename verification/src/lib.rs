//! CART, a cache-aware router for a pool of inference replicas: which replica
//! serves a request, how its load, health and circuit breaker evolve, how the
//! configuration is layered and checked.
//!
//! A request is extracted ([`extract`]), routed ([`routing`]) by what the radix
//! tree ([`tree`]) knows of the caches of the replicas ([`worker`]), and taken
//! through its attempts ([`proxy`]).

pub mod circuit_breaker;
pub mod config;
pub mod count;
pub mod debug;
pub mod eviction;
pub mod extract;
pub mod float32;
pub mod json;
pub mod layers;
pub mod marks;
pub mod metrics;
pub mod node;
pub mod pool;
pub mod prefixes;
pub mod proxy;
pub mod prune;
pub mod record;
pub mod reload;
pub mod routing;
pub mod server;
pub mod stats;
pub mod text;
pub mod tree;
pub mod worker;
pub mod yaml;
