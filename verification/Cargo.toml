[package]
name = "dirsync"
version = "0.1.0"
edition = "2021"
publish = false

[dependencies]
notify = "4"
serde = { version = "1", features = ["derive"] }
serde_yaml = "0.8"
