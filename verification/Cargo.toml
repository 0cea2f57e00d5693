[package]
name = "aoit"
version = "0.1.0"
edition = "2021"
publish = false

[dependencies]
sha2 = "=0.10.9"
anyhow = "*"
clap = { version = "*", features = ["derive"] }
env_logger = "*"
glob = "*"
log = "*"
sevenz-rust = "*"
