[package]
name = "gloomy"
version = "0.1.0"
edition = "2021"
publish = false

[dependencies]
regex = "1"
image = { version = "0.25", default-features = false, features = ["png"] }
serde = { version = "1", features = ["derive"] }
ron = "0.8"
anyhow = "1"
glam = "0.29"
