[package]
name = "opthash"
version = "0.1.0"
edition = "2021"
publish = false

[dependencies]
equivalent = "=1.0.3"
foldhash = "=0.2.0"
pyo3 = "0.27"
