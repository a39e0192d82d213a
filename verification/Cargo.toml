[package]
name = "sortvis"
version = "0.1.0"
edition = "2021"
publish = false

[dependencies]
rand = "=0.8.8"
eframe = { version = "*", default-features = false, features = ["glow", "x11"] }
