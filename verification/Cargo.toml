[package]
name = "electricity_monitor_backend"
version = "0.1.0"
edition = "2021"
publish = false

[dependencies]
hmac = "0.12"
sha2 = "0.10"
rand = "0.9"
urlencoding = "2"
lru = "0.12"
uuid = { version = "1", features = ["v4"] }
sonic-rs = "*"
serde = { version = "1", features = ["derive"] }
serde_json = "1"
chrono = "0.4"
validator = { version = "0.20", features = ["derive"] }
deadpool-redis = "*"
tokio = { version = "1", features = ["rt", "macros", "time", "sync"] }
thiserror = "2"
anyhow = "1"
jsonwebtoken = "9"
reqwest = { version = "0.12", default-features = false, features = ["rustls-tls"] }
