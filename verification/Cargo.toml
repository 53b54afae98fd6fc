[package]
name = "file_serve"
version = "0.1.0"
edition = "2021"
publish = false

[dependencies]
axum = { version = "0.6", default-features = false }
mime_guess = "2"
tokio = { version = "1", features = ["fs"] }
tokio-util = { version = "0.7", features = ["io"] }
