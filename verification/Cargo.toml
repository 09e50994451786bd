[package]
name = "phi2"
version = "0.1.0"
edition = "2021"
publish = false

[dependencies]
fancy-regex = "*"
rand = "0.8"
serde = { version = "1", features = ["derive"] }
toml = "*"
