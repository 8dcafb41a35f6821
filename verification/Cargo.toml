[package]
name = "multi_key_db"
version = "0.1.0"
edition = "2021"
publish = false

[dependencies]
clap = { version = "3.2", features = ["cargo"] }
cli-table = { version = "0.4", default-features = false }
dirs-next = "2"
env_logger = "0.9"
log = "0.4"
