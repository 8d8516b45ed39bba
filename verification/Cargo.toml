[package]
name = "quadtree_img"
version = "0.1.0"
edition = "2021"
publish = false

[dependencies]
bitvec = "0.17"
clap = "2"
image = { version = "0.23", default-features = false, features = ["png", "jpeg"] }
