[package]
name = "passkit"
version = "0.1.0"
edition = "2021"
publish = false

[dependencies]
argon2 = "0.5"
md5 = "*"
rand = "0.9"
