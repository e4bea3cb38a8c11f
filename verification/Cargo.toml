[package]
name = "win_global_gpu"
version = "0.1.0"
edition = "2021"
publish = false

[dependencies]
anyhow = "=1.0.104"
ntfs = "=0.4.0"
rustc-hash = "=1.1.0"
winrt-toast = "=0.1.1"

[dependencies.windows]
version = "=0.52.0"
features = [
    "Win32_Foundation",
    "Win32_Graphics_Gdi",
    "Win32_Security",
    "Win32_Storage_FileSystem",
    "Win32_System_Console",
    "Win32_System_IO",
    "Win32_System_Ioctl",
    "Win32_System_LibraryLoader",
    "Win32_System_Memory",
    "Win32_System_Power",
    "Win32_System_Registry",
    "Win32_System_SystemServices",
    "Win32_System_Threading",
    "Win32_UI_Shell",
    "Win32_UI_WindowsAndMessaging",
    "ApplicationModel",
    "ApplicationModel_Core",
    "Foundation",
    "Foundation_Collections",
    "Management_Deployment",
]
