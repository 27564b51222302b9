[package]
name = "geo302"
version = "0.1.0"
edition = "2021"
publish = false

[dependencies]
anyhow = "1"
flate2 = "1"
hyper = { version = "0.14", features = ["client", "server", "http1", "http2", "tcp"] }
hyper-tls = "0.5"
log = "0.4"
maxminddb = "0.24"
serde = { version = "1", features = ["derive"] }
simple_logger = "4"
tar = "0.4"
thiserror = "1"
tokio = { version = "1", features = ["rt", "rt-multi-thread", "macros", "time", "net"] }
toml = "0.8"
