[package]
name = "labby-gateway"
version = "0.1.0"
edition = "2021"
publish = false

[dependencies]
anyhow = "1"
base64 = "0.22"
serde_json = "1"
tokio = { version = "1", features = ["full"] }
tracing = "0.1"
futures = "0.3"
thiserror = "2"
tokio-util = "0.7"
rmcp = { version = "*", features = ["client", "server"] }
process-wrap = { version = "*", features = ["tokio1"] }
