[package]
name = "gaussian_blur"
version = "0.1.0"
edition = "2021"
publish = false

[dependencies]
bytemuck = "1"
clap = { version = "4", features = ["derive"] }
image = { version = "0.25", default-features = false, features = ["bmp", "gif", "jpeg", "png", "tiff", "webp"] }
objc2 = "0.6"
objc2-metal = "0.3"
objc2-metal-performance-shaders = "0.3"
pollster = "0.4"
rayon = "1"
wgpu = "28"
