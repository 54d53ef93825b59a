[package]
name = "phymmr_hashmap"
version = "0.1.0"
edition = "2021"
publish = false

[dependencies]
fasthash = "0.4"
pyo3 = { version = "0.20", features = ["extension-module"] }
