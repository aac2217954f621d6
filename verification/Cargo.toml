[package]
name = "tileworld"
version = "0.1.0"
edition = "2021"
publish = false

[dependencies]
rayon = "=1.12.0"
clap = { version = "=4.6.7", features = ["derive"] }
image = { version = "=0.25.10", default-features = false, features = ["png", "jpeg"] }
minifb = { version = "0.29", default-features = false, features = ["x11"] }
cutile = "=0.3.1"
cuda-core = "=0.3.1"
