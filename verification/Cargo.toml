[package]
name = "mesh_scene"
version = "0.1.0"
edition = "2021"
publish = false

[dependencies]
poll-promise = "=0.3.0"
glam = { version = "=0.30.10", features = ["serde"] }
eframe = { version = "=0.31.1", default-features = false, features = ["glow", "persistence", "x11"] }
egui = "=0.31.1"
ehttp = "=0.5.0"
serde = { version = "=1.0.229", features = ["derive"] }
serde_json = "=1.0.154"
strum = { version = "=0.27.2", features = ["derive"] }
bytemuck = "=1.25.2"
log = "=0.4.34"
