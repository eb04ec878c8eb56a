[package]
name = "that_night"
version = "0.1.0"
edition = "2021"
publish = false

[dependencies]
rand = "0.8"
serde = { version = "1", features = ["derive"] }
serde_json = "1"
nannou = "0.18"
rodio = "0.17"
