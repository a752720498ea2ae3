[package]
name = "logview"
version = "0.1.0"
edition = "2021"
publish = false

[dependencies]
chrono = "=0.4.45"
regex = "1"
serde = { version = "=1.0.229", features = ["derive"] }
serde_json = "=1.0.151"
