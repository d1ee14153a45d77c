[package]
name = "guid_renumber"
version = "0.1.0"
edition = "2021"
publish = false

[dependencies]
yaml-rust = "0.4"
uuid = { version = "1", features = ["v4"] }
clap = { version = "4", features = ["derive"] }
env_logger = "0.11"
log = "0.4"
walkdir = "2"
