[package]
name = "codex-ble-bridge"
version = "0.1.0"
edition = "2021"
publish = false

[dependencies]
anyhow = "1"
btleplug = "*"
clap = { version = "4", features = ["derive"] }
dirs = "*"
fs2 = "0.4"
plist = "1"
serde = { version = "1", features = ["derive"] }
serde_json = "1"
tokio = { version = "1", features = ["full"] }
tray-icon = "*"
uuid = "1"
winit = "0.30"
