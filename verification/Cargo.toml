[package]
name = "weighted_path"
version = "0.6.0"
edition = "2021"
publish = false

[dependencies]
fastrand = "2"
