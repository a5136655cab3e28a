[package]
name = "elem"
version = "0.1.0"
edition = "2021"
publish = false

[dependencies]
cxx = "1"
env_logger = "*"
futures-util = "0.3"
hound = "3"
log = "0.4"
serde = { version = "1", features = ["derive"] }
serde_json = "1"
tinyaudio = "*"
tokio = { version = "1", features = ["full"] }
tokio-tungstenite = "*"
