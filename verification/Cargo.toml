[package]
name = "transcript_context"
version = "0.1.0"
edition = "2021"
publish = false

[dependencies]
rangeset = "=0.4.1"
url = "=2.5.8"
http = "=1.5.0"
serde_json = { version = "=1.0.151", features = ["preserve_order"] }
serde = { version = "=1.0.229", features = ["derive"] }
