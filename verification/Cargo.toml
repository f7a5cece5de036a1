[package]
name = "daemon_one_core"
version = "0.1.0"
edition = "2021"
publish = false

[dependencies]
pyo3 = { version = "*", features = ["abi3-py39"] }
rayon = "1"
regex = "1"
