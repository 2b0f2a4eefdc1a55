[package]
name = "wave_core"
version = "0.1.0"
edition = "2021"
publish = false

[dependencies]
adblock = "=0.8.12"
rmp = "=0.8.14"
url = "=2.5.8"
uuid = { version = "=1.29.0", features = ["v4"] }
serde = { version = "=1.0.229", features = ["derive"] }
log = "=0.4.34"
env_logger = "=0.11.11"
