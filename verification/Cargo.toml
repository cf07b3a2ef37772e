[package]
name = "waronmap"
version = "0.1.0"
edition = "2021"
publish = false

[dependencies]
argon2 = "0.5"
crossbeam-channel = "0.5"
futures-util = "0.3"
geo = "0.28"
rand = "0.8"
s2 = "*"
serde = { version = "1", features = ["derive"] }
serde_json = "1"
sha2 = "0.10"
subtle = "2"
tiny_http = "0.12"
tokio = { version = "1", features = ["rt-multi-thread", "net", "sync", "time", "macros"] }
tokio-tungstenite = "0.24"
url = "2"
