[package]
name = "wasteland_tactics"
version = "0.1.0"
edition = "2021"
publish = false

[dependencies]
pathfinding = "=4.16.0"
rand = "=0.9.5"
rand_chacha = "=0.9.0"
tiled = { version = "=0.16.0", default-features = false }
