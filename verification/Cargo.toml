[package]
name = "rustclaw"
version = "0.1.0"
edition = "2021"
publish = false

[dependencies]
anyhow = "1"
axum = "0.8"
clap = { version = "4", features = ["derive"] }
eventsource-stream = "0.2"
futures-util = "0.3"
globset = "0.4"
mimalloc = "0.1"
regex = "1"
reqwest = { version = "0.12", default-features = false, features = ["json", "stream", "rustls-tls"] }
serde = { version = "1", features = ["derive"] }
serde_json = "1"
thiserror = "2"
tokio = { version = "1", features = ["rt", "macros", "net", "io-std", "io-util", "fs", "process", "signal", "sync", "time"] }
tokio-util = "0.7"
toml = "0.8"
walkdir = "2"
