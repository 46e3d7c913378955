[package]
name = "pragmatic"
version = "0.1.0"
edition = "2021"
publish = false

[dependencies]
serde_json = "1"
ureq = { version = "2", features = ["json"] }
pyo3 = { version = "0.22", features = ["abi3-py38"] }
