[package]
name = "ping-util-rs"
version = "0.1.0"
edition = "2021"
publish = false

[dependencies]
structopt = "0.3"
log = "0.4"
env_logger = { version = "0.7", default-features = false }
socket2 = { version = "0.5", features = ["all"] }
