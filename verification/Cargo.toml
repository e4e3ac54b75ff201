[package]
name = "knightdag"
version = "0.1.0"
edition = "2021"
publish = false

[dependencies]
parity-db = "0.5"
bincode = "1"
serde = { version = "1", features = ["derive"] }
serde_json = "1"
chrono = { version = "0.4", features = ["serde"] }
axum = "0.6"
tokio = { version = "1", features = ["full"] }
tower-http = { version = "0.4", features = ["cors"] }
anyhow = "1"
thiserror = "1"
log = "0.4"
env_logger = "0.10"
tracing = "0.1"
tracing-subscriber = "0.3"
