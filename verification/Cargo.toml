[package]
name = "ranabi"
version = "0.1.0"
edition = "2021"
publish = false

[dependencies]
indexmap = "2"
colored = "2"
rand = "0.8"
rand_chacha = "0.3"
