[package]
name = "pe_timeline"
version = "0.1.0"
edition = "2021"
publish = false

[dependencies]
anyhow = "1"
csv = "1.3"
eframe = { version = "0.32", default-features = false, features = ["glow", "default_fonts", "x11"] }
egui = { version = "0.32", default-features = false }
serde = { version = "1", features = ["derive"] }
