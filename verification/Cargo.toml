[package]
name = "tranova"
version = "0.1.0"
edition = "2021"
publish = false

[dependencies]
serde = { version = "=1.0.229", features = ["derive"] }
serde_json = "=1.0.154"
base64 = "=0.22.1"
mime_guess = "=2.0.5"
zip = { version = "=2.6.1", default-features = false, features = ["deflate"] }
quick-xml = "=0.37.5"
csv = "=1.4.0"
thiserror = "=2.0.21"
tokio = { version = "=1.54.1", features = ["rt-multi-thread", "macros", "sync", "time", "net"] }
tokio-util = "=0.7.20"
parking_lot = "=0.12.5"
reqwest = { version = "=0.12.28", default-features = false, features = ["json", "rustls-tls", "socks", "stream"] }
axum = { version = "=0.8.9", features = ["multipart"] }
tower-http = { version = "=0.6.11", features = ["cors", "fs", "trace"] }
directories = "=6.0.0"
lopdf = "*"
printpdf = "0.12"
fontdb = "*"
