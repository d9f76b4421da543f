[package]
name = "feathered"
version = "0.1.0"
edition = "2021"
publish = false

[dependencies]
serde = { version = "1", features = ["derive"] }
serde_json = "1"
sha2 = "0.10"
bincode = "1.3"
image = { version = "0.25", default-features = false, features = ["png"] }
zip = { version = "2", default-features = false, features = ["deflate"] }
dirs = "5"
rayon = "1"
bytemuck = { version = "1", features = ["derive"] }
pollster = "0.4"
wgpu = "*"
winit = "*"
