[package]
name = "fcwt2"
version = "1.6.0"
edition = "2021"
publish = false

[dependencies]
rustfft = "6"
pyo3 = "*"
