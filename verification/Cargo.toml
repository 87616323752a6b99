[package]
name = "rusty_painter"
version = "0.1.0"
edition = "2021"
publish = false

[dependencies]
eframe = { version = "=0.36.2", default-features = false, features = ["default_fonts", "glow", "x11"] }
egui_dock = "=0.21.1"
rayon = "=1.12.0"
rfd = { version = "=0.16.1", default-features = false, features = ["xdg-portal", "tokio"] }
image = { version = "=0.25.10", default-features = false, features = ["png", "jpeg", "tiff"] }
rand = "=0.9.5"
env_logger = { version = "=0.11.11", default-features = false }
octotablet = "=0.1.0"
wide = "=1.7.1"
