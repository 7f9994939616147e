[package]
name = "twodbattle"
version = "0.1.0"
edition = "2021"
publish = false

[dependencies]
rand = "0.7"
itertools = "0.9"
serde = { version = "1", features = ["derive"] }
bincode = "1"
anyhow = "1"
clap = { version = "2", features = ["yaml"] }
laminar = "*"
crossbeam-channel = "*"
piston = "*"
piston2d-graphics = "*"
piston2d-opengl_graphics = "*"
pistoncore-glfw_window = "*"
