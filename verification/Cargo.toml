[package]
name = "cipher_attacks"
version = "0.1.0"
edition = "2021"
publish = false

[dependencies]
hex = "*"
sha2 = "*"
reqwest = { version = "*", default-features = false, features = ["blocking"] }
num-bigint = "*"
num-integer = "*"
