[package]
name = "reflex"
version = "0.1.0"
edition = "2021"
publish = false

[dependencies]
anyhow = "1"
bytes = "1"
dashmap = "*"
futures-util = "0.3"
libc = "0.2"
lru = "*"
serde = { version = "1", features = ["derive"] }
serde_json = "1"
socket2 = { version = "*", features = ["all"] }
tokio = { version = "1", features = ["full"] }
tracing = "0.1"
tun = { version = "0.8", features = ["async"] }
ureq = "2"
rustls = { version = "0.23", default-features = false, features = ["ring", "std", "tls12", "logging"] }
