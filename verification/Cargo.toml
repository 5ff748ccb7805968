[package]
name = "sigma_diagnostics"
version = "0.1.0"
edition = "2021"
publish = false

[dependencies]
serde = { version = "=1.0.229", features = ["derive"] }
serde_json = "=1.0.154"
socketcan = "=4.0.0"
clap = { version = "=4.6.7", features = ["derive"] }
env_logger = "=0.11.11"
