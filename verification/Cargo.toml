[package]
name = "dsline"
version = "0.0.1"
edition = "2021"
publish = false

[dependencies]
pyo3 = { version = "0.22", features = ["abi3-py39", "extension-module"] }
