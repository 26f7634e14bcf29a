[package]
name = "btclib"
version = "0.1.0"
edition = "2021"
publish = false

[dependencies]
chrono = "0.4"
ecdsa = "0.16"
k256 = { version = "0.13", features = ["ecdsa"] }
sha2 = "0.10"
uuid = { version = "1", features = ["v4"] }
