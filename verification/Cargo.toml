[package]
name = "brush_viewer"
version = "0.1.0"
edition = "2021"
publish = false

[dependencies]
glam = "0.30"
tokio = { version = "1", features = ["rt-multi-thread"] }
tokio-stream = "0.1"
