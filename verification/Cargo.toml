[package]
name = "smartdns"
version = "0.1.0"
edition = "2021"
publish = false

[dependencies]
base64 = "=0.23.1"
lru = "=0.19.0"
ipnet = "=2.12.2"
serde = { version = "=1.0.229", features = ["derive"] }
serde_json = "=1.0.154"
chrono = "=0.4.45"
rand = "=0.10.3"
mac-addr = "=0.3.0"
self_update = { version = "=1.3.3", default-features = false, features = ["ureq", "rustls", "github"] }
