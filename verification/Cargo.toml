[package]
name = "sync-rs"
version = "0.1.0"
edition = "2021"
publish = false

[dependencies]
anyhow = "1"
blake3 = "1"
bytes = "1"
chunkrs = "*"
futures = "0.3"
memmap2 = "0.9"
thiserror = "2"
tokio = { version = "1", features = ["full"] }
tokio-retry2 = { version = "0.9", features = ["jitter"] }
tokio-util = { version = "0.7", features = ["codec", "rt"] }
tracing = "0.1"
tracing-subscriber = { version = "0.3", features = ["env-filter", "json", "fmt"] }
uuid = { version = "1", features = ["v4"] }
