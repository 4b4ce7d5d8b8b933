[package]
name = "nistrs"
version = "0.1.0"
edition = "2021"

[dependencies]
libm = "0.2"
