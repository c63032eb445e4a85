[package]
name = "lowprint-tcp-proxy"
version = "0.1.0"
edition = "2021"
publish = false

[dependencies]
anyhow = "=1.0.104"
clap = { version = "=4.6.7", features = ["derive"] }
hex = "=0.4.3"
rustls-pemfile = "=2.2.0"
serde = { version = "=1.0.229", features = ["derive"] }
sha2 = "=0.10.9"
subtle = "=2.6.1"
tokio = { version = "=1.54.1", features = ["full"] }
tokio-rustls = { version = "=0.26.6", default-features = false, features = ["ring", "logging", "tls12"] }
toml = "=0.8.23"
tracing = "=0.1.44"
tracing-subscriber = { version = "=0.3.23", features = ["env-filter"] }
urlencoding = "=2.1.3"

[dev-dependencies]
rcgen = { version = "0.13", default-features = false, features = ["ring", "pem"] }
