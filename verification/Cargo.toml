[package]
name = "mc_ping"
version = "0.1.0"
edition = "2021"
publish = false

[dependencies]
anyhow = "1"
serde = { version = "1", features = ["derive"] }
serde_json = "1"
tokio = { version = "1", default-features = false, features = ["net", "io-util", "time"] }
tokio-socks = "0.5"
