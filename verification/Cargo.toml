[package]
name = "file_parts"
version = "0.1.0"
edition = "2021"
publish = false

[dependencies]
serde_json = "1"
uuid = { version = "1", features = ["v4"] }

[dev-dependencies]
regex = "1"
