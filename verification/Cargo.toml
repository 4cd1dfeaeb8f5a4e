[package]
name = "voxel_engine"
version = "0.1.0"
edition = "2021"
publish = false

[dependencies]
rand = "=0.9.5"
wgpu = "*"
winit = "0.30"
glam = "*"
bytemuck = { version = "1", features = ["derive"] }
pollster = "*"
image = { version = "*", default-features = false, features = ["png"] }
env_logger = "*"
wgpu_text = "*"
lazy_static = "1"
