[package]
name = "ndarray_stats"
version = "0.1.0"
edition = "2021"
publish = false

[dependencies]
ndarray = "*"
indexmap = "*"
noisy_float = "*"
num-traits = "*"
