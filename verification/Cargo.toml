[package]
name = "makepad_kit"
version = "0.1.0"
edition = "2021"
publish = false

[dependencies]
brotli = { version = "=9.0.0", features = ["portable-float"] }
deflate = "=1.0.0"
