[package]
name = "mailfind"
version = "0.1.0"
edition = "2021"
publish = false

[dependencies]
anyhow = "1"
axum = "0.6"
axum-server = { version = "0.5", features = ["tls-rustls"] }
bytelines = "2"
env_logger = "0.10"
flate2 = "1"
log = "0.4"
notify = "6"
once_cell = "1"
parking_lot = "0.12"
rustc-hash = "1"
serde = { version = "1", features = ["derive"] }
serde_yaml = "0.9"
thiserror = "1"
tokio = { version = "1", features = ["full"] }
tower-http = { version = "0.4", features = ["cors"] }
