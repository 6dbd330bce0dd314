[package]
name = "caqtus-parsing-rs"
version = "0.1.0"
edition = "2021"
publish = false

[dependencies]
chumsky = "0.10"
logos = "0.15"
pyo3 = "0.25"
