[package]
name = "jerkmon"
version = "0.1.0"
edition = "2021"
publish = false

[dependencies]
crossbeam-channel = "=0.5.17"
ctrlc = "=3.5.2"
futures-util = "=0.3.34"
libc = "=0.2.191"
tempfile = "=3.27.0"
tokio = { version = "=1.54.1", features = ["macros", "net", "rt-multi-thread", "sync", "time"] }
tokio-tungstenite = "=0.30.0"
wayland-client = "=0.31.15"
wayland-protocols = { version = "=0.32.13", features = ["client"] }
windows = { version = "=0.59.0", features = ["Win32_Foundation", "Win32_Graphics_Direct3D", "Win32_Graphics_Direct3D11", "Win32_Graphics_Dxgi", "Win32_Graphics_Dxgi_Common", "Win32_Graphics_Gdi", "Win32_System_LibraryLoader", "Win32_UI_Input", "Win32_UI_WindowsAndMessaging"] }
