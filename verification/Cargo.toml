[package]
name = "spatial_query"
version = "0.1.0"
edition = "2021"
publish = false

[dependencies]
bytemuck = { version = "=1.25.2", features = ["extern_crate_alloc"] }
glam = "=0.30.10"
pollster = "=0.4.0"
wgpu = "=29.0.4"
