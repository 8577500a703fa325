[package]
name = "login_server"
version = "0.1.0"
edition = "2021"
publish = false

[dependencies]
tungstenite = "*"

[dev-dependencies]
serde_json = "*"
