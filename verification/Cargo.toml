[package]
name = "tonyutils"
version = "0.1.0"
edition = "2021"
publish = false

[dependencies]
hex = "0.4"
num_cpus = "1"
sha2 = "0.8"
