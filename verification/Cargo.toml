[package]
name = "molasses"
version = "0.1.0"
edition = "2021"
publish = false

[dependencies]
hex = "=0.4.3"
wgpu = "=25.0.2"
winit = "=0.30.13"
glam = "=0.30.10"
bytemuck = { version = "=1.25.2", features = ["derive"] }
image = { version = "=0.25.10", default-features = false, features = ["png", "jpeg", "bmp", "gif", "tga", "webp"] }
rand = "=0.9.5"
tracing = "=0.1.44"
tracing-subscriber = "=0.3.23"
egui = "0.32"
egui-wgpu = { version = "0.32", features = ["winit"] }
egui-winit = { version = "0.32", default-features = false }
