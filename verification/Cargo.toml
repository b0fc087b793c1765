[package]
name = "poisson"
version = "0.1.0"
edition = "2021"
publish = false

[dependencies]
modulo = "*"
rand = "0.8.5"
nalgebra = { version = "*", default-features = false, features = ["std"] }
