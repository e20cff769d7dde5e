[package]
name = "rklearn"
version = "0.1.0"
edition = "2021"
publish = false

[dependencies]
ndarray = { version = "=0.16.1", features = ["rayon"] }
rayon = "=1.12.0"
pyo3 = { version = "=0.26.0", features = ["abi3-py38", "extension-module"] }
numpy = "=0.26.0"
ndarray-linalg = "=0.17.0"
