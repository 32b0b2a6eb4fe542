[package]
name = "sync_hub"
version = "0.1.0"
edition = "2021"
publish = false

[dependencies]
anyhow = "*"
lazy_static = "*"
serde = { version = "*", features = ["derive"] }
serde_json = "*"
ws = "*"
