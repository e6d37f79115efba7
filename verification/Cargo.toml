[package]
name = "rugui"
version = "0.1.0"
edition = "2021"
publish = false

[dependencies]
wgpu = { version = "22", default-features = false, features = ["wgsl"] }
winit = { version = "0.30", default-features = false, features = ["rwh_06", "x11"] }
cosmic-text = "0.12"
image = { version = "0.25", default-features = false, features = ["png"] }
bytemuck = { version = "1", features = ["derive"] }
nalgebra = "0.33"
clipboard = "0.5"
pollster = "0.3"
