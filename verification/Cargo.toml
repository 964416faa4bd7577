[package]
name = "image_classifier"
version = "0.1.0"
edition = "2021"
publish = false

[dependencies]
image = "0.24"
tensorflow = "0.21"
serde = { version = "1", features = ["derive"] }
serde_json = "1"
axum = { version = "0.6", features = ["multipart"] }
tokio = { version = "1", features = ["full"] }
reqwest = "0.11"
