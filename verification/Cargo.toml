[package]
name = "bezier_mirror"
version = "0.1.0"
edition = "2021"
publish = false

[dependencies]
nalgebra = "*"
serde_json = "*"
