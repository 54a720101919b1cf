[package]
name = "prime_factor"
version = "0.1.0"
edition = "2021"
publish = false

[dependencies]
multiversion = "*"
num-complex = "*"
num-traits = "*"
