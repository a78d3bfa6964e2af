[package]
name = "matchmaker"
version = "0.1.0"
edition = "2021"
publish = false

[dependencies]
rand = "=0.8.8"
serde = { version = "=1.0.229", features = ["derive"] }
serde_json = "=1.0.151"
sha2 = "=0.10.9"
skillratings = { version = "=0.25.1", features = ["serde"] }
tinytemplate = "=1.2.1"
