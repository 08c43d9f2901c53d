[package]
name = "obd_equation_rs"
version = "1.0.0"
edition = "2021"
publish = false

[dependencies]
libm = "0.2"
