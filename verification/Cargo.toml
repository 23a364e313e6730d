[package]
name = "minichat_server"
version = "0.1.0"
edition = "2021"
publish = false

[dependencies]
dashmap = "*"
futures-channel = "0.3"
futures-util = "0.3"
tokio = { version = "1", features = ["rt-multi-thread", "net", "macros"] }
tokio-tungstenite = "*"
tungstenite = "*"
