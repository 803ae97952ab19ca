[package]
name = "gandalfd"
version = "0.1.0"
edition = "2021"
publish = false

[dependencies]
ahash = "0.8"
async-trait = "0.1"
config = { version = "*", default-features = false, features = ["toml"] }
hickory-resolver = "*"
hickory-server = "*"
reqwest = { version = "0.12", default-features = false, features = ["rustls-tls"] }
serde = { version = "1", features = ["derive"] }
thiserror = "*"
tokio = { version = "1", features = ["full"] }
tracing = "0.1"
tracing-subscriber = { version = "0.3", features = ["env-filter"] }
