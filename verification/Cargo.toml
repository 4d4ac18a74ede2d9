[package]
name = "data_uri"
version = "0.1.0"
edition = "2021"
publish = false

[dependencies]
base64 = "0.13"
image = { version = "0.24", default-features = false, features = ["png", "jpeg"] }
mime = "0.3"
