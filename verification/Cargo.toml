[package]
name = "poulpy_pir"
version = "0.1.0"
edition = "2021"
publish = false

[dependencies]
poulpy-hal = "0.9"
poulpy-core = "0.9"
private-gemm-x86 = "0.1.22"
getrandom = "0.3"
