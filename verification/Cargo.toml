[package]
name = "merkle_trie"
version = "0.1.0"
edition = "2021"
publish = false

[dependencies]
crypto-hash = "*"

[dev-dependencies]
rand = "0.8"
rand_chacha = "0.3"
