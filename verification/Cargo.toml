[package]
name = "binary_agreement"
version = "0.1.0"
edition = "2021"
publish = false

[dependencies]
itertools = "0.7"
