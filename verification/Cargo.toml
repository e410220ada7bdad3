[package]
name = "hermes_gateway"
version = "0.1.0"
edition = "2021"
publish = false

[dependencies]
tokio = { version = "*", features = ["rt-multi-thread", "macros", "net", "sync", "time", "io-util"] }
tokio-tungstenite = "*"
futures-util = "*"
clap = { version = "*", features = ["derive"] }
tracing = "*"
tracing-subscriber = "*"

[dev-dependencies]
serde_json = "*"
