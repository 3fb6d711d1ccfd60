[package]
name = "rs_voxie"
version = "0.1.0"
edition = "2021"
publish = false

[dependencies]
bincode = "=1.3.3"
env_logger = "=0.11.11"
glam = { version = "=0.34.2", features = ["serde"] }
hecs = "=0.11.2"
log = "=0.4.35"
serde = { version = "=1.0.229", features = ["derive"] }
serde_json = "=1.0.154"
