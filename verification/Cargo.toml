[package]
name = "ffwebapps"
version = "0.1.0"
edition = "2021"
publish = false

[dependencies]
url = "=2.5.8"
serde = { version = "=1.0.229", features = ["derive"] }
serde_json = "=1.0.154"
directories = "=5.0.1"
glob = "=0.3.4"
anyhow = "=1.0.104"
log = "=0.4.35"
ulid = "=1.2.1"
image = { version = "0.25", default-features = false, features = ["png", "jpeg", "gif", "webp", "ico", "bmp"] }
