[package]
name = "framework"
version = "0.1.0"
edition = "2021"
publish = false

[dependencies]
glam = { version = "=0.34.2", features = ["serde", "bytemuck"] }
serde = { version = "=1.0.229", features = ["derive"] }
serde_json = "=1.0.154"
anyhow = "=1.0.104"
bytemuck = { version = "=1.25.2", features = ["derive"] }
rand = "=0.8.8"
rodio = "=0.23.0"
image = { version = "=0.25.10", default-features = false, features = ["bmp", "dds", "exr", "ff", "gif", "hdr", "ico", "jpeg", "png", "pnm", "qoi", "tga", "tiff", "webp"] }
