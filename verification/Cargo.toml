[package]
name = "opsin"
version = "0.1.0"
edition = "2021"
publish = false

[dependencies]
eframe = { version = "0.31.1", default-features = false, features = ["glow"] }
image = { version = "0.25.10", default-features = false, features = ["jpeg", "png"] }
little_exif = "0.6.23"
rayon = "1.12.0"
serde = { version = "1.0.229", features = ["derive"] }
toml = "0.8.23"
udev = "0.9.3"
walkdir = "2.5.0"
