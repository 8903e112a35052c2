[package]
name = "network"
version = "0.1.0"
edition = "2021"
publish = false

[dependencies]
docopt = "=1.1.1"
regex = "=1.13.1"
serde = { version = "=1.0.229", features = ["derive"] }
