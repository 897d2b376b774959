[package]
name = "gacha_url"
version = "0.1.0"
edition = "2021"
publish = false

[dependencies]
url = "=2.5.8"
serde_json = "=1.0.154"
serde = { version = "=1.0.229", features = ["derive"] }
anyhow = "=1.0.104"
clap = { version = "=4.6.7", features = ["derive"] }
dirs = "=5.0.1"
toml = "=0.8.23"
toml_edit = "=0.22.27"
walkdir = "=2.5.0"
reqwest = { version = "=0.12.28", default-features = false, features = ["blocking", "rustls-tls"] }
arboard = "=3.7.0"

[dev-dependencies]
regex = "1"
