[package]
name = "rusip"
version = "0.1.0"
edition = "2021"
publish = false

[dependencies]
nom = { version = "5", default-features = false, features = ["std"] }

[dev-dependencies]
rand = "0.7"
