[package]
name = "state_compressor"
version = "0.1.0"
edition = "2021"
publish = false

[dependencies]
lru-cache = "0.1"
