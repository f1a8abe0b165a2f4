[package]
name = "orderbook"
version = "0.1.0"
edition = "2021"
publish = false

[dependencies]
anyhow = "*"
futures-util = "*"
reqwest = { version = "*", default-features = false }
serde = { version = "*", features = ["derive"] }
serde_json = "*"
tokio = { version = "*", features = ["rt-multi-thread", "macros", "sync", "time", "net"] }
tokio-tungstenite = "*"
url = "*"
