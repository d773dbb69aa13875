[package]
name = "chute"
version = "0.2.1"
edition = "2021"
publish = false

[dependencies]
branch_hints = "*"
spin = "*"

[dev-dependencies]
rand = "0.8"
