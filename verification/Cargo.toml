[package]
name = "mt_client"
version = "0.1.0"
edition = "2021"
publish = false

[dependencies]
image = "=0.24.9"
rand = "=0.8.8"
guillotiere = "=0.6.2"
lerp = "=0.5.0"
cgmath = "=0.18.0"
collision = "=0.20.1"
wgpu = "=0.15.1"
wgpu_glyph = "=0.19.0"
winit = "=0.28.7"
tokio = { version = "=1.54.1", features = ["full"] }
futures = "=0.3.34"
crossbeam-channel = "=0.5.17"
bytemuck = { version = "=1.25.2", features = ["derive"] }
serde = { version = "=1.0.229", features = ["derive"] }
rust-embed = "=8.13.0"
fps_counter = "=3.0.0"
