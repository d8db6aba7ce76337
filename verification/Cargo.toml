[package]
name = "maze"
version = "0.1.0"
edition = "2021"
publish = false

[dependencies]
rand = "0.8"
raqote = { version = "0.8", default-features = false, features = ["png"] }
