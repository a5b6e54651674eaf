[package]
name = "openpfe"
version = "0.1.0"
edition = "2021"
publish = false

[dependencies]
serde = { version = "=1.0.229", features = ["derive"] }
serde_json = "=1.0.154"
sha2 = "=0.10.9"
uuid = { version = "=1.29.0", features = ["v4"] }
reqwest = { version = "=0.12.28", default-features = false, features = ["blocking", "rustls-tls"] }
tokio = { version = "=1.54.1", features = ["full"] }
axum = "=0.8.9"
fd-lock = "=4.0.4"
encoding_rs = "=0.8.44"
grafeo = { version = "=0.5.44", features = ["wal"] }
thiserror = "=2.0.21"
