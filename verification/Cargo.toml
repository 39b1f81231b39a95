[package]
name = "flid_engine"
version = "0.1.0"
edition = "2021"
publish = false

[dependencies]
rand = "0.7"
time = "0.1"
crossbeam-channel = "0.5"
ws = "0.9"
serde = { version = "1", features = ["derive"] }
serde_derive = "1"
serde_json = "1"
log = "0.4"
env_logger = "*"
