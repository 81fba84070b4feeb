[package]
name = "libgefs"
version = "0.1.0"
edition = "2021"
publish = false

[dependencies]
solvent = "0.8"
serde_json = "1"
wgpu = "0.6"
winit = "0.23"
gilrs = "0.8"
nalgebra = "0.23"
nalgebra-glm = "0.9"
async-std = "1"
async-trait = "0.1"
bytemuck = "1"
bytemuck_derive = "1"
image = "0.23"
