[package]
name = "notepad"
version = "0.1.0"
edition = "2021"
publish = false

[dependencies]
serde = { version = "=1.0.229", features = ["derive"] }
serde_json = "=1.0.154"
libloading = "=0.9.0"
vst3 = "=0.3.0"
egui = "=0.37.0"
dark-light = "=3.0.0"
rfd = { version = "=0.17.2", default-features = false, features = ["xdg-portal"] }
raw-window-handle = "=0.6.2"
baseview = "=0.4.2"
egui-baseview = "=0.9.0"
