[package]
name = "my-key-vault"
version = "0.1.0"
edition = "2021"
publish = false

[dependencies]
aes-gcm = "0.10"
rust-crypto = "0.2"
rand = "0.8"
anyhow = "1"
log = "0.4"
env_logger = "0.10"

[dev-dependencies]
bincode = "1"
