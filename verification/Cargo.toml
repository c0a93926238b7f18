[package]
name = "circlefall"
version = "0.1.0"
edition = "2021"
publish = false

[dependencies]
image = "0.24"
gif = "0.13"
tiny-skia = "0.11"
clap = { version = "4", features = ["derive"] }
pollster = "0.3"
indicatif = "0.17"
wgpu = "0.19"
bytemuck = { version = "1", features = ["derive"] }
futures-intrusive = "0.5"
