[package]
name = "aud2"
version = "0.1.0"
edition = "2021"
publish = false

[dependencies]
anyhow = "*"
argh = "*"
csv = "*"
env_logger = "*"
fraction = "*"
itertools = "*"
log = "*"
serde = { version = "*", features = ["derive"] }
