[package]
name = "chatproto"
version = "0.1.0"
edition = "2021"
publish = false

[dependencies]
uuid = { version = "*", features = ["v4"] }
async-std = "*"
anyhow = "*"
log = "*"
pretty_env_logger = "*"
structopt = "*"
