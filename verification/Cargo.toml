[package]
name = "uamutations"
version = "0.1.0"
edition = "2021"
publish = false

[dependencies]
nalgebra = { version = "*", default-features = false, features = ["std"] }
ndarray = { version = "*", default-features = false, features = ["std"] }
serde_json = "1"
