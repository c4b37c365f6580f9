[package]
name = "pyaisa_core"
version = "0.1.0"
edition = "2021"
publish = false

[dependencies]
pyo3 = { version = "0.21", features = ["extension-module"] }
numpy = "0.21"
rayon = "1"
