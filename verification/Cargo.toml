[package]
name = "rdst"
version = "0.1.0"
edition = "2021"

[dependencies]
arbitrary-chunks = "*"
num_cpus = "1"
rayon = "1"
