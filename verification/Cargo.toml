[package]
name = "konnect"
version = "0.1.0"
edition = "2021"
publish = false

[dependencies]
anyhow = "1"
base64 = "0.22"
serde_json = "1"
tokio = { version = "1", features = ["fs", "macros", "process", "rt", "rt-multi-thread", "time"] }
tracing = "0.1"
uuid = { version = "1", features = ["v4"] }
