[package]
name = "gdtf_share"
version = "0.1.0"
edition = "2021"
publish = false

[dependencies]
ehttp = { version = "0.7", features = ["native-async"] }
serde = { version = "=1.0.229", features = ["derive"] }
serde_json = "=1.0.154"
uuid = { version = "=1.29.1", features = ["serde"] }
