[package]
name = "caissa"
version = "0.6.0"
edition = "2021"
publish = false

[dev-dependencies]
chrono = { version = "0.4", default-features = false }
