[package]
name = "wm_core"
version = "0.1.0"
edition = "2021"
publish = false

[dependencies]
anyhow = "*"
futures-util = "*"
serde = { version = "*", features = ["derive"] }
serde_json = "*"
tokio = { version = "*", features = ["rt-multi-thread", "net", "sync", "macros", "time"] }
tokio-tungstenite = "*"
tracing = "*"
uuid = { version = "*", features = ["v4"] }
