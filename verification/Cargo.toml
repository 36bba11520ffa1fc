[package]
name = "portscan"
version = "0.1.0"
edition = "2021"
publish = false

[dependencies]
uuid = { version = "1", features = ["v4"] }
chrono = "0.4"
serde = { version = "1", features = ["derive"] }
serde_json = "1"
tokio = { version = "1", features = ["net", "time", "rt", "rt-multi-thread", "sync", "macros"] }
futures = "0.3"
hickory-resolver = "*"
anyhow = "1"
