[package]
name = "hyprmonitor"
version = "0.1.0"
edition = "2021"
publish = false

[dependencies]
regex = "1"
anyhow = "1"
clap = { version = "4", features = ["derive"] }
hyprland = "0.4.0-beta.1"
serde = { version = "1", features = ["derive"] }
serde_json = "1"
tokio = { version = "1", features = ["rt-multi-thread", "macros", "sync", "time", "process"] }
tracing = "0.1"
tracing-subscriber = { version = "0.3", features = ["env-filter"] }
eframe = { version = "0.34.3", default-features = false, features = ["glow", "wayland", "default_fonts"] }
egui = { version = "0.34.3", default-features = false, features = ["default_fonts"] }
