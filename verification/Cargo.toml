[package]
name = "hotdrink-rs"
version = "0.1.0"
edition = "2021"
publish = false

[dependencies]
itertools = "*"
futures = "*"
rayon = "*"
derivative = "*"
log = "*"
