[package]
name = "top_crates"
version = "0.1.0"
edition = "2021"
publish = false

[dependencies]
cargo = "0.50"
itertools = "=0.8.2"
reqwest = "=0.9.24"
semver = "0.10"
serde = { version = "=1.0.229", features = ["derive"] }
serde_json = "=1.0.154"
toml = "=0.5.11"
