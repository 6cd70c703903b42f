[package]
name = "maze_paths"
version = "0.1.0"
edition = "2021"
publish = false

[dependencies]
rand = "*"
minifb = "*"
font8x8 = "*"
rayon = "*"
