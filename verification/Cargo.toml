[package]
name = "range_map"
version = "0.1.0"
edition = "2021"
publish = false

[dependencies]
env_logger = "0.11"
serde = { version = "1", features = ["derive"] }
