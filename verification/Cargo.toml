[package]
name = "repairjson"
version = "0.2.0"
edition = "2021"
publish = false

[dependencies]
pyo3 = { version = "0.26", features = ["abi3-py38"] }
