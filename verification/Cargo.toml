[package]
name = "dirspec"
version = "0.1.0"
edition = "2021"
publish = false

[dependencies]
rust-crypto = "0.2.36"
log = "0.3"
env_logger = "0.4"
quick-error = "1"
