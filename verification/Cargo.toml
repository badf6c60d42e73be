[package]
name = "josh"
version = "0.1.0"
edition = "2021"
publish = false

[dependencies]
glob = "0.3"
base64 = "0.13"
uuid = { version = "1", features = ["v4"] }
rust-crypto = "0.2"
