[package]
name = "webgu"
version = "0.1.0"
edition = "2021"
publish = false

[dependencies]
ring = "*"
hex = "*"
serde = { version = "*", features = ["derive"] }
serde_json = "*"
base64 = "*"
reqwest = { version = "*", default-features = false }
tokio = { version = "*", features = ["rt-multi-thread"] }
