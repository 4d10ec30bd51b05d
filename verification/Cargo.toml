[package]
name = "chain_vote"
version = "0.1.0"
edition = "2021"
publish = false

[dependencies]
eccoxide = "*"
cryptoxide = "*"
rand_core = "*"
rayon = "*"

[dev-dependencies]
rand_chacha = "*"
