[package]
name = "callandor"
version = "0.1.0"
edition = "2021"
publish = false

[dependencies]
anyhow = "*"
bytemuck = { version = "*", features = ["derive"] }
glam = "*"
pollster = "*"
wgpu = { version = "*", default-features = false, features = ["std", "vulkan", "wgsl"] }
winit = "*"
