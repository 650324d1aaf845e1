[package]
name = "entry_store"
version = "0.1.0"
edition = "2021"
publish = false

[dependencies]
aes = "0.8"
cipher = "0.4"
base64 = "0.13"

[dev-dependencies]
rand = "0.8"
