[package]
name = "dnschecker"
version = "0.1.0"
edition = "2021"
publish = false

[dependencies]
humantime = "=2.4.0"
hickory-resolver = { version = "=0.26.3", features = ["tokio", "tls-ring", "https-ring", "rustls-platform-verifier"] }
serde = { version = "=1.0.229", features = ["derive"] }
tokio = { version = "=1.54.1", features = ["rt-multi-thread", "sync", "time", "net", "macros"] }
