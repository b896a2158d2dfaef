[package]
name = "path_animation"
version = "0.1.0"
edition = "2021"
publish = false

[dependencies]
sfml = "0.20"
ezing = "*"
