[package]
name = "blazingly"
version = "0.1.0"
edition = "2021"
publish = false

[dependencies]
base64 = "0.22"
blazingly-json = "*"
memchr = "2"
serde = { version = "1", features = ["derive"] }
serde_path_to_error = "*"
sha2 = "0.10"
