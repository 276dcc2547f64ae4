[package]
name = "codex_image"
version = "0.1.0"
edition = "2021"
publish = false

[dependencies]
unicode-segmentation = "=1.13.3"
chrono = "=0.4.45"
serde = { version = "=1.0.229", features = ["derive"] }
serde_json = "=1.0.154"
anyhow = "=1.0.104"
libc = "=0.2.191"
dirs = "=7.0.0"
uuid = { version = "=1.29.0", features = ["v4"] }
lz4_flex = "=0.14.0"
image = { version = "0.25", default-features = false, features = ["png", "jpeg", "gif", "webp", "bmp", "ico", "tiff", "pnm"] }
