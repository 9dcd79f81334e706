[package]
name = "proxima"
version = "0.1.0"
edition = "2021"
publish = false

[dependencies]
bincode = "1.3"
numpy = "0.22"
pyo3 = { version = "0.22", features = ["abi3-py39", "extension-module"] }
rayon = "1"
serde = { version = "1", features = ["derive"] }
