[package]
name = "resin_slicer"
version = "0.1.0"
edition = "2021"
publish = false

[dependencies]
image = { version = "=0.25.10", default-features = false, features = ["png"] }
imageproc = { version = "=0.27.0", default-features = false }
stl_io = "=0.11.0"
nalgebra = "=0.35.0"
rayon = "=1.12.0"
log = "=0.4.34"
serde = { version = "=1.0.229", features = ["derive"] }
toml = "=1.1.8"
uuid = { version = "=1.29.0", features = ["v4"] }
bytemuck = { version = "=1.25.2", features = ["derive"] }
