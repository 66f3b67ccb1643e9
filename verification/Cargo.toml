[package]
name = "synth_ui"
version = "0.1.0"
edition = "2021"
publish = false

[dependencies]
bytemuck = { version = "1", features = ["derive"] }
egui = "0.29"
egui_tiles = "0.10"
egui-wgpu = "0.29"
egui-winit = "0.29"
pollster = "0.3"
rfd = "0.15"
wgpu = "22"
winit = "0.30"
