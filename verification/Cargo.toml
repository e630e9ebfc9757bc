[package]
name = "eyec"
version = "0.1.0"
edition = "2021"
publish = false

[dependencies]
which = "*"

[dev-dependencies]
serde_json = "*"
