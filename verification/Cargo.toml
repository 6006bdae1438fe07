[package]
name = "stage3d"
version = "0.1.0"
edition = "2021"
publish = false

[dependencies]
glam = "*"
hecs = "*"
bytemuck = { version = "*", features = ["derive"] }
log = "*"
pollster = "*"
wgpu = "*"
winit = "*"
web-time = "*"
