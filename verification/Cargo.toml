[package]
name = "dark_forest"
version = "0.1.0"
edition = "2021"
publish = false

[dependencies]
rand = "0.8"
hex = "0.4"
memmap2 = "0.9"
rayon = "1"
bytemuck = { version = "1", features = ["derive"] }
wgpu = "0.19"
