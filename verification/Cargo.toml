[package]
name = "reapeaks"
version = "0.1.0"
edition = "2021"
publish = false

[dependencies]
pyo3 = { version = "*", features = ["abi3-py39"] }
rayon = "1"
realfft = "3"
