[package]
name = "kicad_spaghetti"
version = "0.1.0"
edition = "2021"
publish = false

[dependencies]
anyhow = "*"
bytemuck = { version = "*", features = ["derive"] }
crossbeam-channel = "*"
egui = "*"
egui-wgpu = "*"
egui-winit = "*"
env_logger = "*"
glam = "*"
kicad-ipc-rs = "*"
num = "*"
pollster = "*"
rayon = "*"
strum = "*"
strum_macros = "*"
wgpu = "*"
winit = "*"
