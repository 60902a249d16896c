[package]
name = "egorec"
version = "0.1.0"
edition = "2021"
publish = false

[dependencies]
crc32c = "=0.6.9"
sha1 = "=0.10.7"
hex = "=0.4.3"
serde = { version = "=1.0.229", features = ["derive"] }
serde_json = "=1.0.154"
chrono = "=0.4.45"
anyhow = "=1.0.104"
image = { version = "0.25", default-features = false, features = ["jpeg", "png"] }
urlencoding = "2"
walkdir = "2"
