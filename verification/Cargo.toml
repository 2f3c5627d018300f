[package]
name = "voxel_ray_traversal"
version = "0.1.0"
edition = "2021"
publish = false

[dependencies]
dot_vox = "5"
ply-rs = "0.1"
nalgebra = "0.33"
bytemuck = { version = "1", features = ["derive"] }
serde = { version = "1", features = ["derive"] }
serde_json = "1"
dirs = "5"
rand = "0.8"
rand_chacha = "0.3"
image = { version = "0.25", default-features = false, features = ["png"] }
