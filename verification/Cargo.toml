[package]
name = "room_planner"
version = "0.1.0"
edition = "2021"
publish = false

[dependencies]
egui = { version = "0.37", default-features = false }
eframe = { version = "0.37", default-features = false, features = ["wgpu", "default_fonts", "x11"] }
serde = { version = "1", features = ["derive"] }
serde_json = "1"
rfd = "0.17"
bytemuck = { version = "1", features = ["derive"] }
glam = "0.34"
log = "0.4"
