[package]
name = "infix_parser"
version = "0.1.0"
edition = "2021"
publish = false

[dependencies]
pyo3 = { version = "0.20", features = ["abi3-py37", "extension-module"] }
