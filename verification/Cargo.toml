[package]
name = "aequorea"
version = "0.1.0"
edition = "2021"
publish = false

[dependencies]
rust-crypto = "=0.2.36"
libflate = "=2.3.2"
