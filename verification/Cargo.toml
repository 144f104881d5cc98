[package]
name = "rustchord"
version = "0.1.0"
edition = "2021"
publish = false

[dependencies]
anyhow = "1"
cpal = "0.13"
palette = "0.6"
serde = { version = "1", features = ["derive"] }
thiserror = "1"
