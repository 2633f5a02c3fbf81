[package]
name = "image_cluster"
version = "0.1.0"
edition = "2021"
publish = false

[dependencies]
clap = { version = "*", features = ["derive"] }
image = { version = "*", default-features = false, features = ["jpeg", "png", "bmp", "webp", "tiff", "ico"] }
image_hasher = "*"
indicatif = "*"
rayon = "*"
