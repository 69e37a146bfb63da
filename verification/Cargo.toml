[package]
name = "sim_an"
version = "0.1.0"
edition = "2021"
publish = false

[dependencies]
rand = "0.8"
permutator = "0.4"
image = { version = "0.24", default-features = false, features = ["png", "gif"] }
gif = "0.12"
itertools = "0.10"
rayon = "1"
