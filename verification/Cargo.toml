[package]
name = "bloomlib"
version = "0.1.0"
edition = "2021"
publish = false

[dependencies]
murmur3 = "*"
serde_json = "*"
