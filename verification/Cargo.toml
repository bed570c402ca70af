[package]
name = "vectorsnap"
version = "0.1.0"
edition = "2021"
publish = false

[dependencies]
base64 = "0.22"
image = { version = "0.25", default-features = false, features = ["png", "jpeg"] }
serde = { version = "1", features = ["derive"] }
serde_json = "1"
chrono = { version = "0.4", default-features = false, features = ["clock"] }
dirs = "6"
notify = { version = "8", default-features = false }
arboard = "3"
rfd = { version = "0.15", default-features = false, features = ["xdg-portal", "tokio"] }
pdfium-render = "0.8"
printpdf = { version = "0.7", default-features = false }
eframe = { version = "0.32", default-features = false, features = ["glow", "x11", "default_fonts"] }
mimalloc = "0.1"
