[package]
name = "nmc"
version = "0.1.0"
edition = "2021"
publish = false

[dependencies]
anyhow = "*"
clap = "*"
env_logger = "*"
log = "*"
network-interface = "*"
nmstate = { version = "*", default-features = false, features = ["gen_conf"] }
serde = { version = "*", features = ["derive"] }
serde_yaml = "*"

[dev-dependencies]
configparser = "*"
