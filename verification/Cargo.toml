[package]
name = "hardlink_dedup"
version = "0.1.0"
edition = "2021"
publish = false

[dependencies]
clap = { version = "4", features = ["derive"] }
env_logger = "0.11"
log = "0.4"
sha2 = "0.10"
uuid = { version = "1", features = ["v4"] }
walkdir = "2"
