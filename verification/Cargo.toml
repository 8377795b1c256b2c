[package]
name = "plane_ransac"
version = "0.1.0"
edition = "2021"
publish = false

[dependencies]
kdtree = "*"
rand = "0.8"
pcd-rs = { version = "*", features = ["derive"] }
