[package]
name = "mdglimpse"
version = "0.1.0"
edition = "2021"
publish = false

[dependencies]
pulldown-cmark = { version = "=0.13.6", default-features = false }
serde = { version = "=1.0.229", features = ["derive"] }
eframe = { version = "0.36", default-features = false, features = ["glow", "default_fonts", "persistence", "x11"] }
egui = "0.36"
egui_extras = { version = "0.36", features = ["image"] }
egui_commonmark = "0.25"
image = { version = "*", default-features = false, features = ["png"] }
rfd = "*"
windows-sys = { version = "*", features = ["Win32_Foundation", "Win32_System_Registry", "Win32_UI_Shell"] }
