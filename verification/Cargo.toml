[package]
name = "merkle_frontier"
version = "0.1.0"
edition = "2021"
publish = false

[dependencies]
incrementalmerkletree = { version = "=0.9.0", features = ["legacy-api"] }
sapling-crypto = "=0.9.0"
