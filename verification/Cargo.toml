[package]
name = "seismic"
version = "0.1.0"
edition = "2021"
publish = false

[dependencies]
itertools = "0.14"
num-traits = "0.2"
rand = "0.9"

[dev-dependencies]
rand_chacha = "0.9"
