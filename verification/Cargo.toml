[package]
name = "nanocube2"
version = "0.1.0"
edition = "2021"
publish = false

[dependencies]
rocket = "0.5"

[dev-dependencies]
rand = "0.8"
