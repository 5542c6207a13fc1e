[package]
name = "rasterizer"
version = "0.1.0"
edition = "2021"
publish = false

[dependencies]
env_logger = "0.11"
glam = "0.25"
log = "0.4"
mesh-loader = "0.1"
palette = "0.7"
softbuffer = "0.4"
winit = "0.29"
