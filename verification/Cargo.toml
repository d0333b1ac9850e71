[package]
name = "ci_logs"
version = "0.1.0"
edition = "2021"
publish = false

[dependencies]
curl = "0.4"
failure = "0.1"
futures = "0.1"
log = "0.4"
serde = { version = "1", features = ["derive"] }
serde_json = "1"
tokio-core = "0.1"
tokio-curl = "0.1"
