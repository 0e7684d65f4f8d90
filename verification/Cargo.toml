[package]
name = "vaumototool"
version = "0.1.0"
edition = "2021"
publish = false

[dependencies]
rayon = "1"
chrono = "0.4"
tokio = { version = "1", features = ["rt-multi-thread", "net", "time"] }
bincode = { version = "2", features = ["derive"] }
serde = { version = "1", features = ["derive"] }
eframe = { version = "0.31", default-features = false, features = ["default_fonts", "glow", "x11"] }
egui_plot = "0.31"
rfd = { version = "0.15", default-features = false, features = ["xdg-portal", "tokio"] }
