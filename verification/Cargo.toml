[package]
name = "optimacore"
version = "0.1.0"
edition = "2021"
publish = false

[dependencies]
blake3 = "=1.8.7"
flate2 = "=1.1.10"
lru = { version = "=0.18.5", default-features = false }
