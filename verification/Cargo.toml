[package]
name = "timecloud"
version = "0.1.0"
edition = "2021"
publish = false

[dependencies]
regex = "1"
rust-stemmers = "1"
anyhow = "1"
clap = { version = "4", features = ["derive"] }
indicatif = "0.17"
rand = "0.8"
ab_glyph = "0.2"
image = { version = "0.25", default-features = false, features = ["png", "jpeg", "webp", "bmp", "gif"] }
imageproc = { version = "0.25", default-features = false }
kamadak-exif = "0.5"
