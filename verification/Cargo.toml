[package]
name = "bgen_reader"
version = "0.1.0"
edition = "2021"
publish = false

[dependencies]
flate2 = "*"
clap = { version = "*", features = ["derive"] }
log = "*"
env_logger = "*"
ryu = "*"
sqlite = "*"
