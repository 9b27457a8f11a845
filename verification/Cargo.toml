[package]
name = "nano_chain"
version = "0.1.0"
edition = "2021"
publish = false

[dependencies]
sha3 = "0.8"
base64 = "0.10"
serde = { version = "1", features = ["derive"] }
serde_json = "1"
serde_yaml = "0.8"
clap = "2"
ctrlc = "3"
env_logger = "0.6"
log = "0.4"
rand = "0.7"
