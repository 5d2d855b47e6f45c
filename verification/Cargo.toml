[package]
name = "comicinfo_generator"
version = "0.3.0"
edition = "2021"
rust-version = "1.80"
publish = false

[dependencies]
regex = "1"
unicode-normalization = "0.1"
serde = { version = "1", features = ["derive"] }
serde_json = "1"
chrono = { version = "0.4", default-features = false, features = ["clock", "std"] }
dirs = "6"
rayon = "1"
zip = { version = "2", default-features = false, features = ["deflate"] }
image = { version = "0.25", default-features = false, features = ["png"] }
eframe = { version = "0.29", default-features = false, features = ["default_fonts", "glow", "x11"] }
egui_dnd = "0.10"
rfd = { version = "0.15", default-features = false, features = ["xdg-portal", "tokio"] }
