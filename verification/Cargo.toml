[package]
name = "scribble"
version = "0.1.0"
edition = "2021"
publish = false

[dependencies]
regex = "1"
image = { version = "0.25", default-features = false, features = ["png"] }
serde = { version = "1", features = ["derive"] }
serde_json = "1"
arboard = { version = "3", default-features = false }
rfd = "0.15"
eframe = { version = "0.29", default-features = false, features = ["glow", "default_fonts", "x11"] }
