[package]
name = "diskusagemap"
version = "1.0.0"
edition = "2021"
publish = false

[dependencies]
chrono = "0.4"
eframe = { version = "0.33", default-features = false, features = ["default_fonts", "glow", "x11"] }
rusqlite = { version = "0.37", features = ["bundled"] }
