[package]
name = "interceptor-rs"
version = "0.1.0"
edition = "2021"
publish = false

[dependencies]
anyhow = "1"
arc-swap = "1"
bytes = "1"
dashmap = "6"
futures = "0.3"
http = "1"
http-body-util = "0.1"
httparse = "1"
hyper = { version = "1", features = ["server", "http1", "http2"] }
hyper-util = { version = "0.1", features = ["tokio", "server", "server-auto", "http1", "http2"] }
k8s-openapi = { version = "0.24", features = ["v1_31"] }
kube = { version = "0.98", features = ["runtime", "derive"] }
parking_lot = "0.12"
pin-project-lite = "0.2"
pprof = { version = "0.14", features = ["flamegraph"] }
prometheus = "0.13"
schemars = "0.8"
serde = { version = "1", features = ["derive"] }
serde_json = "1"
tikv-jemallocator = "0.6"
tokio = { version = "1", features = ["full"] }
tracing = "0.1"
tracing-subscriber = { version = "0.3", features = ["env-filter"] }
