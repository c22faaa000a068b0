[package]
name = "valkey-faces"
version = "0.1.0"
edition = "2021"
publish = false

[dependencies]
anyhow = "=1.0.104"
clap = { version = "=4.6.7", features = ["derive"] }
image = { version = "=0.25.10", default-features = false, features = ["bmp", "dds", "exr", "ff", "gif", "hdr", "ico", "jpeg", "png", "pnm", "qoi", "tga", "tiff", "webp"] }
# Newer releases ask for a newer rustc.
kstring = "=2.0.2"
redis = "=0.27.6"
rustface = "=0.1.7"
tract-onnx = "=0.21.10"
