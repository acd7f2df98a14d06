[package]
name = "refstore"
version = "0.1.0"
edition = "2021"
publish = false

[dependencies]
anyhow = "*"
argh = "*"
env_logger = "*"
log = "*"
