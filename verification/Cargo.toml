[package]
name = "l4_book"
version = "0.1.0"
edition = "2021"
publish = false

[dependencies]
clap = { version = "*", features = ["derive"] }
env_logger = "*"
serde = { version = "*", features = ["derive"] }
serde_json = "*"
chrono = "*"
