[package]
name = "runes"
version = "0.1.0"
edition = "2021"
publish = false

[dependencies]
serde = { version = "=1.0.229", features = ["derive"] }
serde_with = { version = "=3.24.0", default-features = false, features = ["macros"] }
