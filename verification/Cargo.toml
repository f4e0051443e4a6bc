[package]
name = "elm327"
version = "0.1.0"
edition = "2021"
publish = false

[dependencies]
tokio = { version = "*", features = ["io-util", "time"] }
tokio-serial = "*"
