[package]
name = "soloband"
version = "0.1.0"
edition = "2021"
publish = false

[dependencies]
roxmltree = "0.20"
zip = { version = "2", default-features = false, features = ["deflate"] }
rustysynth = "1"
serde = { version = "1", features = ["derive"] }
serde_json = "1"
tokio = { version = "1", features = ["rt", "rt-multi-thread", "macros", "sync", "time", "net"] }
tokio-tungstenite = "0.21"
futures-util = { version = "0.3", features = ["sink"] }
mdns-sd = "0.13"
flume = "0.11"
local-ip-address = "0.6"
log = "0.4"
