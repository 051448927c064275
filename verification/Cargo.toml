[package]
name = "nnsearch"
version = "0.1.0"
edition = "2021"
publish = false

[dependencies]
rand = { version = "0.8", features = ["small_rng"] }
clap = "2"
ndarray = "0.15"
ndarray-rand = "0.14"
num = "0.4"
