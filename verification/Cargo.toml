[package]
name = "fur"
version = "0.1.0"
edition = "2021"
publish = false

[dependencies]
nalgebra = "*"
spin = "*"
cosmic-text = { version = "*", default-features = false, features = ["std"] }
