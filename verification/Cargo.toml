[package]
name = "caliper"
version = "0.1.0"
edition = "2021"
publish = false

[dependencies]
arrow = { version = "*", default-features = false }
nalgebra = "*"
parquet = { version = "*", default-features = false, features = ["arrow"] }
serde_json = "1"
urdf-rs = "*"
