[package]
name = "ion_win"
version = "0.1.0"
edition = "2021"
publish = false

[dependencies]
chrono = { version = "=0.4.45", default-features = false, features = ["std", "clock", "alloc"] }
chrono-tz = "=0.10.4"
crossterm = "=0.27.0"
ctrlc = "=3.5.2"
redb = "=2.6.4"
regex = "=1.13.1"
serde_json = "=1.0.154"
tokio = { version = "=1.54.1", features = ["rt-multi-thread", "macros", "sync", "time"] }
windows = { version = "0.52", features = ["Win32_Foundation", "Win32_Security", "Win32_System_Com", "Win32_System_DataExchange", "Win32_System_Memory", "Win32_System_Registry", "Win32_System_Threading", "Win32_UI_Shell", "Win32_UI_Shell_Common", "Win32_UI_WindowsAndMessaging"] }
windows-sys = { version = "=0.52.0", features = ["Win32_Foundation", "Win32_Security", "Win32_Storage_FileSystem", "Win32_System_Console", "Win32_System_JobObjects", "Win32_System_SystemServices", "Win32_System_Threading"] }
zip = { version = "=2.6.1", default-features = false, features = ["deflate"] }
