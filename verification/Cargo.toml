[package]
name = "async_vpk"
version = "1.1.1"
edition = "2021"
publish = false

[dependencies]
crc32fast = "1.4"
ico = "0.3"
anyhow = "1"
clap = { version = "4.5", features = ["derive"] }
rayon = "1.10"
walkdir = "2"
eframe = { version = "0.29", default-features = false, features = ["default_fonts", "glow", "x11"] }
rfd = "0.15"
