[package]
name = "rust_prime"
version = "0.1.0"
edition = "2021"
publish = false

[dependencies]
chili = "=0.2.1"
orx-parallel = "=4.1.1"
par-iter = "=2.0.0"
rayon = "=1.12.0"
