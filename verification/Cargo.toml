[package]
name = "dsh_desktop"
version = "0.1.0"
edition = "2021"
publish = false

[dependencies]
serde_json = "1"
serde_yaml = "0.9"
uuid = { version = "1", features = ["v4"] }
ureq = { version = "2", features = ["json"] }
tungstenite = "0.24"
http = "1"
raw-window-handle = "0.6"
winreg = "0.55"
tauri-winrt-notification = "0.7"
