[package]
name = "viewer_on_tauri"
version = "0.1.0"
edition = "2021"
publish = false

[dependencies]
serde = { version = "=1.0.229", features = ["derive"] }
zip = "=2.6.1"
image = { version = "=0.25.10", default-features = false, features = ["png", "jpeg", "webp", "gif", "bmp"] }
unrar = "=0.5.8"
ureq = "=2.12.1"
ort = { version = "=2.0.0-rc.15", default-features = false, features = ["std", "load-dynamic"] }
