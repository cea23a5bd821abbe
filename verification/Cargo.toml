[package]
name = "mocker"
version = "0.1.0"
edition = "2021"
publish = false

[dependencies]
dynamo-tokens = "=1.0.2"
dynamo-kv-router = { version = "=1.0.2", default-features = false }
rand = "0.9"
uuid = { version = "1", features = ["v4"] }
serde = { version = "1", features = ["derive"] }
serde_json = "1"
tokio = { version = "1", features = ["full"] }
tokio-util = "0.7"
tracing = "0.1"
validator = { version = "0.20", features = ["derive"] }
