[package]
name = "m31_codegen"
version = "0.1.0"
edition = "2021"
publish = false

[dependencies]

[dev-dependencies]
rand = "0.9"
rand_chacha = "0.9"
