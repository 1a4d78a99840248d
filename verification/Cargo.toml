[package]
name = "tc_manager"
version = "0.1.0"
edition = "2021"
publish = false

[dependencies]
snap = "1"
base64 = "0.22"
chrono = "0.4"
uuid = { version = "1", features = ["v4"] }
serde = { version = "1", features = ["derive"] }
serde_json = "1"
zip = { version = "2", default-features = false, features = ["deflate"] }
walkdir = "2"
libloading = "0.8"
