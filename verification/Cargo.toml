[package]
name = "voxel_engine"
version = "0.1.0"
edition = "2021"
publish = false

[dependencies]
ash = "0.38"
ash-window = "0.13"
bytemuck = { version = "1", features = ["derive"] }
glam = "0.29"
log = "0.4"
raw-window-handle = "0.6"
