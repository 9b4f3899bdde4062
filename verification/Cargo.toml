[package]
name = "sphinx"
version = "0.1.0"
edition = "2021"
publish = false

[dependencies]
persistent_rope = "*"
rustbox = "*"
