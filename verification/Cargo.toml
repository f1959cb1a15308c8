[package]
name = "receipt_splitter"
version = "0.1.0"
edition = "2021"
publish = false

[dependencies]
chrono = "0.4"
html-escape = "0.2"
serde = { version = "1", features = ["derive"] }
serde_json = "1"
tokio = { version = "1", features = ["full"] }
axum = "0.6"
axum-extra = { version = "0.8", features = ["cookie"] }
reqwest = { version = "0.11", default-features = false, features = ["cookies", "rustls-tls"] }
leptess = "0.14"
dashmap = "5"
log = "0.4"
uuid = { version = "1", features = ["v4"] }
