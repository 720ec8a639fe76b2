[package]
name = "miden_tools"
version = "0.1.0"
edition = "2021"
publish = false

[dependencies]
num = "0.4"
num-complex = "0.4"
rand = "0.9"

[dev-dependencies]
rand_chacha = "0.9"
