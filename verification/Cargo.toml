[package]
name = "bully"
version = "0.1.0"
edition = "2021"

[dependencies]
bincode = "1"
chrono = "0.4"
env_logger = "0.10"
log = "0.4"
rand = "0.8"
serde = { version = "1", features = ["derive"] }
