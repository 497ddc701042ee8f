[package]
name = "nesso"
version = "0.1.0"
edition = "2021"
publish = false

[dependencies]
axum = "0.8"
base64 = "0.22"
crc32fast = "1"
hdrhistogram = { version = "7", default-features = false }
reqwest = { version = "0.12", default-features = false, features = ["json"] }
rusqlite = { version = "*", features = ["bundled"] }
serde = { version = "1", features = ["derive"] }
serde_json = "1"
statrs = { version = "*", default-features = false }
tokio = { version = "1", features = ["full"] }
tokio-util = "0.7"
