[package]
name = "camcam"
version = "0.1.0"
edition = "2021"
publish = false

[dependencies]
serde = { version = "1", features = ["derive"] }
once_cell = "1"
rand = "0.8"
ordered-float = "4"
