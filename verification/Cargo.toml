[package]
name = "flwing"
version = "0.1.0"
edition = "2021"
publish = false

[dependencies]
sys-locale = "0.3"
ttf-parser = "0.25"
serde = { version = "1", features = ["derive"] }
bincode = "1.3"
uuid = { version = "1", features = ["v4", "serde"] }
eframe = { version = "0.31", default-features = false, features = ["default_fonts", "glow", "x11"] }
egui = "0.31"
rfd = "0.15"
lyon = "1"
image = { version = "0.25", default-features = false, features = ["png"] }
log = "0.4"
env_logger = { version = "0.11", default-features = false }
once_cell = "1"
