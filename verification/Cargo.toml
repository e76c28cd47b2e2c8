[package]
name = "matrux"
version = "0.1.0"
edition = "2021"
publish = false

[dependencies]
half = "2"

[dev-dependencies]
