[package]
name = "limmb"
version = "0.1.0"
edition = "2021"
publish = false

[dependencies]
bit-set = "0.8"
rand = "0.9"
statrs = "*"
itertools = "*"
log = "0.4"
pyo3 = "*"
