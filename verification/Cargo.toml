[package]
name = "aks_primality"
version = "0.1.0"
edition = "2021"
publish = false

[dependencies]
num = "0.4"
pyo3 = "0.20"
