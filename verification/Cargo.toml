[package]
name = "secret_store"
version = "0.1.0"
edition = "2021"
publish = false

[dependencies]
aes-gcm = { version = "*", features = ["rand_core"] }
argon2 = "*"
base64 = "*"
