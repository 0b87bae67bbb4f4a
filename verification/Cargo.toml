[package]
name = "rust_silence"
version = "0.1.0"
edition = "2021"
publish = false

[dependencies]
rayon = "1"
symphonia = "0.5"
pyo3 = "*"
numpy = "*"
ndarray = "*"
