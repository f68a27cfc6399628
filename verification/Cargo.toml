[package]
name = "chat_rules"
version = "0.1.0"
edition = "2021"
publish = false

[dependencies]
fastrand = "2"
tungstenite = "0.21"
