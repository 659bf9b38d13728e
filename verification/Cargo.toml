[package]
name = "flippy"
version = "0.1.0"
edition = "2021"
publish = false

[dependencies]
anyhow = "=1.0.104"
clap = { version = "=4.6.7", features = ["derive"] }
cliclack = "=0.5.6"
flate2 = "=1.1.10"
flipper-rpc = { version = "=0.9.5", features = ["full", "fs-progress-mpsc"] }
futures-util = "=0.3.34"
gix = { version = "=0.87.1", features = ["blocking-network-client", "blocking-http-transport-reqwest-rust-tls"] }
hex = "=0.4.3"
jiff = "=0.2.37"
md5 = "=0.8.1"
reqwest = { version = "=0.12.28", default-features = false, features = ["json", "rustls-tls", "stream"] }
serde = { version = "=1.0.229", features = ["derive"] }
sha2 = "=0.11.0"
tar = "=0.4.46"
tokio = { version = "=1.53.2", features = ["rt-multi-thread", "macros", "fs", "sync", "io-util"] }
toml = "*"
tracing = "=0.1.44"
tracing-subscriber = "=0.3.23"
url = "=2.5.8"
uuid = { version = "=1.27.0", features = ["v5"] }
