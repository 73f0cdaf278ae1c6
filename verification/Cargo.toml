[package]
name = "eventuler"
version = "0.1.0"
edition = "2021"
publish = false

[dependencies]
chrono = { version = "*", features = ["serde"] }
serde = { version = "*", features = ["derive"] }
serde_json = "*"
tide = "*"
async-std = { version = "*", features = ["attributes"] }
async-tungstenite = "*"
futures = "*"
log = "*"
env_logger = "*"
thiserror = "*"
