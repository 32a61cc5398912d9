[package]
name = "puggles"
version = "0.1.0"
edition = "2021"
publish = false

[dependencies]
rand = { version = "=0.8.8", features = ["small_rng"] }
rayon = "=1.12.0"
serde = { version = "=1.0.229", features = ["derive"] }
wgpu = "=22.1.0"
pollster = "=0.3.0"
