[package]
name = "desktop_logo_core"
version = "0.1.0"
edition = "2021"
publish = false

[dependencies]
anyhow = "1"
clap = { version = "4", features = ["derive"] }
dirs = "5"
image = "0.24"
notify = "6"
pixels = "0.13"
serde = { version = "1", features = ["derive"] }
toml = "0.8"
winit = "0.28"
