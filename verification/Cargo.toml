[package]
name = "bibmatch"
version = "0.1.0"
edition = "2021"
publish = false

[dependencies]
ahash = "0.8"
strsim = "0.11"
rayon = "1"
pyo3 = { version = "0.23", features = ["extension-module"] }
