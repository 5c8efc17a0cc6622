[package]
name = "audio_catalog"
version = "0.1.0"
edition = "2021"
publish = false

[dependencies]
symphonia = { version = "=0.5.5", features = ["all"] }
walkdir = "=2.5.0"
serde = { version = "1", features = ["derive"] }
