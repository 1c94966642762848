[package]
name = "bytie"
version = "0.1.0"
edition = "2021"
publish = false

[dependencies]
anyhow = "*"
atty = "*"
clap = { version = "*", features = ["derive"] }
env_logger = "*"
log = "*"
tempfile = "*"

[dev-dependencies]
rand = "0.7"
