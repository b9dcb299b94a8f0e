[package]
name = "memtrace"
version = "0.1.0"
edition = "2021"
publish = false

[dependencies]
p3-baby-bear = "*"
p3-field = "*"
p3-symmetric = "*"
p3-poseidon2 = "*"
rand = "*"
