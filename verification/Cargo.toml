[package]
name = "cloneit"
version = "0.1.0"
edition = "2021"
publish = false

[dependencies]
url = "=2.5.8"
serde_json = "=1.0.154"
reqwest = { version = "=0.12.28", default-features = false, features = ["rustls-tls"] }
tokio = { version = "=1.54.1", features = ["fs", "io-util", "macros", "rt-multi-thread"] }
clap = { version = "=4.6.7", features = ["derive"] }
color-eyre = "=0.6.5"
env_logger = "=0.11.11"
log = "=0.4.34"
yansi = "=1.0.1"
kdam = { version = "=0.6.4", features = ["rich"] }
walkdir = "=2.5.0"
zip = { version = "=0.6.6", default-features = false, features = ["deflate"] }
