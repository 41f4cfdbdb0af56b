[package]
name = "server"
version = "0.1.0"
edition = "2021"
publish = false

[dependencies]
anyhow = "*"
futures-util = "*"
prost = "*"
tokio = { version = "*", features = ["net"] }
tokio-tungstenite = "*"
tungstenite = "*"
