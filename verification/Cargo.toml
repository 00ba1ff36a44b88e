[package]
name = "alta_bus"
version = "0.1.0"
edition = "2021"
publish = false

[dependencies]
redis = "0.27"
serde = { version = "1", features = ["derive"] }
toml = "0.8"
