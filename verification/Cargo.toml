[package]
name = "atlas"
version = "0.1.0"
edition = "2021"
publish = false

[dependencies]
pulldown-cmark = { version = "=0.13.6", default-features = false }
serde = { version = "=1.0.229", features = ["derive"] }
serde_yaml_ng = "=0.10.0"
ignore = "=0.4.34"
eframe = { version = "*", default-features = false, features = ["default_fonts", "glow", "persistence", "x11"] }

[dev-dependencies]
tempfile = "=3.27.0"
