[package]
name = "bjkst"
version = "0.1.0"
edition = "2021"
publish = false

[dependencies]
highway = "*"
bincode = "1"
serde = "1"
pyo3 = { version = "0.22", features = ["abi3-py310"] }
