[package]
name = "cripto"
version = "0.1.0"
edition = "2021"
publish = false

[dependencies]
dashmap = "6"
futures-util = "0.3"
hex = "0.4"
serde = { version = "1", features = ["derive"] }
serde_json = "1"
tokio = { version = "1", features = ["full"] }
tokio-tungstenite = "0.24"
uuid = { version = "1", features = ["v4"] }
