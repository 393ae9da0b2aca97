[package]
name = "context_loader"
version = "0.1.0"
edition = "2021"
publish = false

[dependencies]
ignore = "0.4"
regex = "1"
tiktoken-rs = "0.6"
blake3 = "1"
walkdir = "2"
serde = { version = "1", features = ["derive"] }
serde_json = "1"
tokio = { version = "1", features = ["fs", "sync", "time", "rt"] }
dirs-next = "2"
log = "0.4"
tracing = "0.1"
tracing-subscriber = { version = "0.3", features = ["env-filter"] }
tracing-appender = "0.2"
