[package]
name = "reverse_proxy"
version = "0.1.0"
edition = "2021"
publish = false

[dependencies]
axum = "0.7"
axum-server = { version = "0.7", features = ["tls-rustls-no-provider"] }
bytes = "1"
dashmap = "6"
futures = "0.3"
http = "1"
reqwest = { version = "0.12", default-features = false, features = ["rustls-tls", "stream"] }
rustls = { version = "0.23", default-features = false, features = ["ring", "std", "logging", "tls12"] }
serde = { version = "1", features = ["derive"] }
tokio = { version = "1", features = ["rt-multi-thread", "macros", "signal", "net", "time", "io-util", "fs"] }
toml = "0.8"
tower-http = { version = "0.6", features = ["fs", "limit"] }
tracing = "0.1"
tracing-subscriber = "0.3"
url = "2"
