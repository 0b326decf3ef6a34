[package]
name = "doughnut"
version = "0.1.0"
edition = "2021"
publish = false

[dependencies]
schnorrkel = "*"
ed25519-dalek = "*"
