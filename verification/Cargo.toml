[package]
name = "tree_pdf_viewer"
version = "0.1.0"
edition = "2021"
publish = false

[dependencies]
lru = "*"
egui = "*"
eframe = { version = "*", default-features = false, features = ["glow", "default_fonts", "x11"] }
serde = { version = "1", features = ["derive"] }
serde_json = "1"
anyhow = "1"
env_logger = "*"
pdfium-render = "*"
image = { version = "*", default-features = false, features = ["png", "bmp"] }
rfd = { version = "*", default-features = false, features = ["xdg-portal", "tokio"] }
