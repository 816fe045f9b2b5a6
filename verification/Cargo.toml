[package]
name = "self_crypto_key"
version = "0.1.0"
edition = "2021"
publish = false

[dependencies]
object = "*"
rand = "*"
sha2 = "*"
