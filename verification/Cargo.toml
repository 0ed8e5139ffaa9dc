[package]
name = "clatter_rs"
version = "0.1.0"
edition = "2021"
publish = false

[dependencies]
safer-ffi = { version = "0.1", features = ["headers"] }
lazy_static = "1"
