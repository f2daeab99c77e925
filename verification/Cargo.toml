[package]
name = "path_editor"
version = "0.1.0"
edition = "2021"
publish = false

[dependencies]
eframe = { version = "0.27", default-features = false, features = ["default_fonts", "glow"] }
rfd = "0.14"
winreg = "0.52"
