[package]
name = "pdf-wm-remover"
version = "0.1.0"
edition = "2021"
publish = false

[dependencies]
lopdf = { version = "0.38", default-features = false }
anyhow = "1"
clap = { version = "4", default-features = false, features = ["std", "derive", "help", "usage", "error-context"] }
eframe = { version = "0.31", default-features = false, features = ["glow", "x11"] }
rfd = { version = "0.15", default-features = false, features = ["xdg-portal", "tokio"] }
