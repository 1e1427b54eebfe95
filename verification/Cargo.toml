[package]
name = "fixed_collections"
version = "0.1.0"
edition = "2021"
publish = false

[dependencies]
pyo3 = "*"
