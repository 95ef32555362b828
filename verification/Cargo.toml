[package]
name = "confgen"
version = "0.1.0"
edition = "2021"
publish = false

[dependencies]
ansi_term = "0.12"
regex = "1"
serde = { version = "1", features = ["derive"] }
serde_yaml = "0.9"
