[package]
name = "mc_renderer"
version = "0.1.0"
edition = "2021"
publish = false

[dependencies]
glam = "=0.30.10"
image = { version = "=0.25.10", default-features = false, features = ["png", "webp"] }
serde = { version = "=1.0.229", features = ["derive"] }
serde_json = "=1.0.154"
webp-animation = "=0.10.0"
