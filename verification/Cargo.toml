[package]
name = "cart"
version = "0.1.0"
edition = "2021"
publish = false

[dependencies]
arc-swap = "1"
axum = "0.8"
bytes = "1"
clap = { version = "4", features = ["derive"] }
futures-util = "0.3"
libc = "0.2"
parking_lot = "0.12"
pin-project-lite = "0.2"
rand = "0.9"
reqwest = { version = "0.12", default-features = false, features = ["stream", "rustls-tls-native-roots"] }
serde = { version = "1", features = ["derive"] }
serde_json = "1"
serde_yaml = "0.9"
tikv-jemalloc-ctl = { version = "0.6", features = ["stats"] }
tikv-jemalloc-sys = "0.6"
tokio = { version = "1", features = ["full"] }
tracing = "0.1"
tracing-subscriber = { version = "0.3", features = ["env-filter"] }
