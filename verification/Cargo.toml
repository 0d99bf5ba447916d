[package]
name = "massflowcal"
version = "0.1.0"
edition = "2021"
publish = false

[dependencies]
petgraph = "=0.7.1"
uuid = { version = "=1.29.0", features = ["v4", "serde"] }
serde = { version = "=1.0.229", features = ["derive"] }
serde_json = "=1.0.154"
rusqlite = { version = "=0.32.1", features = ["bundled"] }
thiserror = "=2.0.21"
log = "=0.4.35"
env_logger = "=0.11.11"
chrono = "=0.4.45"
eframe = { version = "0.33", default-features = false, features = ["default_fonts", "glow", "x11"] }
egui = "0.33"
egui-snarl = "0.9"
rfd = "0.15"
