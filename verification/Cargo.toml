[package]
name = "rustaria"
version = "0.1.0"
edition = "2021"
publish = false

[dependencies]
noise = "0.9"
bytemuck = { version = "1", features = ["derive"] }
glam = "0.29"
log = "0.4"
env_logger = "0.11"
pollster = "0.3"
rayon = "1"
wgpu = "22"
winit = "0.30"
