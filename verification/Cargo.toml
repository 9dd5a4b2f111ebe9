[package]
name = "voxel_core"
version = "0.1.0"
edition = "2021"
publish = false

[dependencies]
gl33 = "*"
glam = "*"
glutin = "0.29"
image = { version = "0.24", default-features = false, features = ["png"] }
json = "*"
