[package]
name = "emerge"
version = "0.1.0"
edition = "2021"
publish = false

[dependencies]
petgraph = "0.5"

[dev-dependencies]
regex = "1"
