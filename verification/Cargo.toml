[package]
name = "xbox_sg"
version = "0.1.0"
edition = "2021"
publish = false

[dependencies]
ring = "=0.17.14"
rust-crypto = "=0.2.36"
openssl = "=0.10.81"
