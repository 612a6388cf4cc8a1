[package]
name = "riff"
version = "0.1.0"
edition = "2021"
publish = false

[dependencies]
similar = "=2.7.0"
serde = { version = "1", features = ["derive"] }
serde_json = "1"
thiserror = "2"
notify = "8"
ignore = "0.4"
