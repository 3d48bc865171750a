[package]
name = "bwlimit"
version = "0.1.0"
edition = "2021"
publish = false

[dependencies]
anyhow = "1"
serde = { version = "1", features = ["derive"] }
serde_json = "1"
tao = "*"
tokio = { version = "1", features = ["rt", "signal"] }
tracing = "0.1"
tracing-subscriber = "0.3"
tray-icon = "*"
