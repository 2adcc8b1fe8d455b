[package]
name = "chemfst"
version = "0.1.0"
edition = "2021"
publish = false

[dependencies]
fst = "0.4"
log = "0.4"
memmap2 = "0.9"
pyo3 = "*"
pyo3-log = "*"
