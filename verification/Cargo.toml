[package]
name = "ziso"
version = "1.0.0"
edition = "2021"
publish = false

[dependencies]
lzzzz = "*"
clap = { version = "4", features = ["derive"] }
log = "*"
env_logger = "*"
