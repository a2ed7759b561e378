[package]
name = "sudoku_app"
version = "0.1.0"
edition = "2021"
publish = false

[dependencies]
rand = "0.8"
eframe = { version = "0.29", default-features = false, features = ["glow", "default_fonts", "x11"] }
