[package]
name = "physics_engine"
version = "0.1.0"
edition = "2021"
publish = false

[dependencies]
bytemuck = { version = "1", features = ["derive"] }
gltf = "1"
pollster = "0.4"
rand = "0.9"
winit = "0.30"
