[package]
name = "stele"
version = "0.1.0"
edition = "2021"
publish = false

[dependencies]
unicode-linebreak = "*"
log = "*"
env_logger = "*"
