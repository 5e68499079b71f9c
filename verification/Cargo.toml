[package]
name = "merkle_stream"
version = "0.1.0"
edition = "2021"

[dependencies]
flat-tree = "*"

[dev-dependencies]
ring = "*"
