[package]
name = "dj-music-suite"
version = "0.1.0"
edition = "2021"
publish = false

[dependencies]
sha2 = "0.10"
lofty = "0.22"
walkdir = "2"
serde = { version = "1", features = ["derive"] }
serde_json = "1"
toml = "0.8"
dirs = "6"
clap = { version = "4", features = ["derive"] }
indicatif = "0.17"
thiserror = "2"
uuid = { version = "1", features = ["v4"] }
tokio = { version = "1", features = ["full"] }
tokio-stream = "0.1"
axum = { version = "0.8", features = ["multipart"] }
