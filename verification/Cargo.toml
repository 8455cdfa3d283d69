[package]
name = "tilemap"
version = "0.1.0"
edition = "2021"
publish = false

[dependencies]
anyhow = "=1.0.104"
bevy = { version = "=0.1.3", default-features = false }
env_logger = "=0.11.11"
notify = "=5.0.0-pre.2"
serde = { version = "=1.0.229", features = ["derive"] }
serde_json = "=1.0.154"
