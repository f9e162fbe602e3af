[package]
name = "folder_browser"
version = "0.1.0"
edition = "2021"
publish = false

[dependencies]
rfd = { version = "0.17", default-features = false, features = ["gtk3"] }
serde = { version = "=1.0.229", features = ["derive"] }
tauri = { version = "=2.12.5", default-features = false, features = ["wry"] }
