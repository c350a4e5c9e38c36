[package]
name = "closest_pairs"
version = "0.1.0"
edition = "2021"
publish = false

[dependencies]
itertools = "*"
rand = "0.8"
nom = "7"
libc = "0.2"
