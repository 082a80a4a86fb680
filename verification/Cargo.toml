[package]
name = "world_chunks"
version = "0.1.0"
edition = "2021"
publish = false

[dependencies]
ahash = { version = "0.8", features = ["serde"] }
serde = { version = "1", features = ["derive"] }
