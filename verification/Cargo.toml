[package]
name = "old-app-detector"
version = "0.1.0"
edition = "2021"
publish = false

[dependencies]
plist = "1"
serde = { version = "1", features = ["derive"] }
