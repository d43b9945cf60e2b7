[package]
name = "bench-server"
version = "0.1.0"
edition = "2021"
publish = false

[dependencies]
rand = "0.9"
dashmap = "6"
hdrhistogram = { version = "7", default-features = false }
axum = "0.8"
tokio = { version = "1", features = ["full"] }
serde = { version = "1", features = ["derive"] }
serde_json = "1"
clap = { version = "4", features = ["derive", "env"] }
tracing = "0.1"
tracing-subscriber = { version = "0.3", features = ["env-filter"] }
async-stream = "0.3"
bytes = "1"
