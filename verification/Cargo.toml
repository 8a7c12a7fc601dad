[package]
name = "mdanchors"
version = "0.1.0"
edition = "2021"
publish = false

[dependencies]
serde = { version = "*", features = ["derive"] }
serde_json = "*"
base64 = "*"
uuid = { version = "*", features = ["v4"] }
