[package]
name = "minitodo"
version = "0.1.0"
edition = "2021"
publish = false

[dependencies]
chrono = "0.4"
toml = "*"
serde = { version = "1", features = ["derive"] }
serde_derive = "1"
atty = "0.2"
