[package]
name = "tile_puzzle"
version = "0.1.0"
edition = "2021"
publish = false

[dependencies]
rand = "0.9"
image = { version = "0.25", default-features = false, features = ["png"] }
winit = "0.30"
winit_input_helper = "0.17"
pixels = "0.15"
