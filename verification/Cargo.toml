[package]
name = "gateway_proxy"
version = "0.1.0"
edition = "2021"
publish = false

[dependencies]
rand = "0.8"
reqwest = { version = "0.12", default-features = false, features = ["rustls-tls"] }
rustls = { version = "0.23", default-features = false, features = ["std", "ring", "tls12"] }
serde = { version = "1", features = ["derive"] }
serde_json = "1"
tokio = { version = "1", features = ["rt", "sync", "time"] }
tokio-postgres = "0.7"
tokio-postgres-rustls = "0.13"
tracing = "0.1"
twilight-gateway = { version = "*", default-features = false }
webpki-roots = "0.26"
