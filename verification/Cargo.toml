[package]
name = "blurman"
version = "0.1.0"
edition = "2021"
publish = false

[dependencies]
clap = { version = "=4.6.7", features = ["derive"] }
dirs = "=6.0.0"
eframe = { version = "0.32", default-features = false, features = ["glow", "x11"] }
egui = { version = "=0.32.3", default-features = false, features = ["default_fonts"] }
raw-window-handle = "=0.6.2"
serde = { version = "=1.0.229", features = ["derive"] }
serde_json = "=1.0.154"
windows-collections = "=0.2.0"
windows-numerics = "=0.2.0"

[dependencies.windows]
version = "=0.61.3"
features = [
    "Foundation",
    "Foundation_Collections",
    "Graphics_Capture",
    "Graphics_DirectX_Direct3D11",
    "Graphics_Effects",
    "System",
    "UI_Composition_Desktop",
    "Win32_Graphics_Direct3D_Fxc",
    "Win32_Graphics_Direct3D11",
    "Win32_Graphics_Dwm",
    "Win32_Graphics_Dxgi_Common",
    "Win32_Graphics_Gdi",
    "Win32_Security",
    "Win32_System_Console",
    "Win32_System_Diagnostics_ToolHelp",
    "Win32_System_LibraryLoader",
    "Win32_System_Registry",
    "Win32_System_Threading",
    "Win32_System_WinRT_Composition",
    "Win32_System_WinRT_Direct3D11",
    "Win32_System_WinRT_Graphics_Capture",
    "Win32_System_WinRT_Graphics_Direct2D",
    "Win32_UI_Accessibility",
    "Win32_UI_HiDpi",
    "Win32_UI_WindowsAndMessaging",
]
