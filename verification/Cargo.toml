[package]
name = "rent"
version = "0.1.0"
edition = "2021"
publish = false

[dependencies]
flate2 = "1"
fontdb = "0.23"
fontdue = "0.9"
image = { version = "0.25", default-features = false, features = ["png", "jpeg", "gif", "webp", "bmp", "tiff", "tga", "qoi", "ico", "pnm", "hdr", "exr"] }
softbuffer = "0.4"
winit = "0.30"
