[package]
name = "dynops"
version = "0.1.0"
edition = "2021"
publish = false

[dependencies]
uuid = { version = "1", features = ["v4"] }
nalgebra = "*"
arma-rs = "*"
anyhow = "1"
chrono = "*"
image = { version = "*", default-features = false, features = ["png"] }
tracing = "*"
tracing-subscriber = "*"
serde_json = "1"
libc = "*"
