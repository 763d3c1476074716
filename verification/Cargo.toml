[package]
name = "aegis"
version = "0.1.0"
edition = "2021"
publish = false

[dependencies]
fst = "=0.4.7"
lru = "=0.12.5"
hickory-proto = "=0.25.2"
memmap2 = "=0.9.12"
arc-swap = "=1.9.3"
parking_lot = "=0.12.5"
tokio = { version = "=1.54.1", features = ["full"] }
serde = { version = "=1.0.229", features = ["derive"] }
serde_json = "=1.0.154"
toml = "=0.8.23"
thiserror = "=1.0.69"
anyhow = "=1.0.104"
reqwest = { version = "=0.12.28", default-features = false, features = ["rustls-tls"] }
rusqlite = { version = "=0.31.0", features = ["bundled"] }
chrono = "=0.4.45"
uuid = { version = "=1.29.0", features = ["v4"] }
clap = { version = "=4.6.7", features = ["derive"] }
dirs = "=5.0.1"
tracing = "=0.1.44"
tracing-subscriber = { version = "=0.3.23", features = ["env-filter"] }
