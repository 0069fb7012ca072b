[package]
name = "rustmd"
version = "0.1.0"
edition = "2021"
publish = false

[dependencies]
regex = "=1.13.1"
serde = { version = "=1.0.229", features = ["derive"] }
serde_json = "=1.0.154"
dirs = "=7.0.0"
clap = { version = "=4.6.7", features = ["derive"] }
log = "=0.4.35"
env_logger = "=0.11.11"
rfd = "*"
