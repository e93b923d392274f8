[package]
name = "zenflate"
version = "0.1.0"
edition = "2021"
publish = false

[dependencies]
enough = "=0.4.5"

[dev-dependencies]
libdeflater = "=1.26.1"
