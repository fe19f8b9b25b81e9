[package]
name = "merkle_tree"
version = "0.1.0"
edition = "2021"

[dependencies]
hex = "0.4"
tiny-keccak = { version = "2", features = ["keccak"] }
