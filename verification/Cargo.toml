[package]
name = "nsc_core"
version = "0.1.0"
edition = "2021"
publish = false

[dependencies]
serde = { version = "*", features = ["derive"] }
serde_json = "*"
dirs = "*"
chrono = "*"
log = "*"
env_logger = "*"
