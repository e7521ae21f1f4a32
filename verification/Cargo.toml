[package]
name = "kore"
version = "0.1.0"
edition = "2021"
publish = false

[dependencies]
nyanko = { version = "=0.11.0", features = ["graphics"] }
image = { version = "=0.25.10", default-features = false, features = ["png"] }
