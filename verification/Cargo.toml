[package]
name = "pesto"
version = "0.1.0"
edition = "2021"
publish = false

[dependencies]
anyhow = "=1.0.104"
clap = { version = "=4.6.7", features = ["derive"] }
crc32fast = "=1.5.4"
md-5 = "=0.9.1"
rayon = "=1.12.0"
reqwest = { version = "=0.12.28", default-features = false, features = ["multipart"] }
serde = { version = "=1.0.229", features = ["derive"] }
sha2 = "=0.9.9"
sysinfo = "=0.33.1"
tempfile = "=3.27.0"
tokio = { version = "=1.54.1", features = ["full"] }
tokio-rustls = { version = "=0.26.6", default-features = false, features = ["ring", "tls12", "logging"] }
toml = "=0.8.23"
tracing = "=0.1.44"
tracing-subscriber = "=0.3.23"
webpki-roots = "=0.26.11"
