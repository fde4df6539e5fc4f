[package]
name = "transopt"
version = "0.1.0"
edition = "2021"
publish = false

[dependencies]
ndarray = "0.16"
sprs = "*"
rayon = "1"
redis = "*"
array2d = "*"
rand = "0.9"
highs = "*"
