[package]
name = "freshness"
version = "0.1.0"
edition = "2021"
publish = false

[dependencies]
rustc-hash = "2"
anyhow = "1"
fs-err = "2"
serde = { version = "1", features = ["derive"] }
toml = "0.8"
tracing = "0.1"
url = "2"
