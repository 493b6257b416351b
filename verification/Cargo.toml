[package]
name = "cshell"
version = "0.1.0"
edition = "2021"
publish = false

[dependencies]
clap = { version = "4", features = ["derive"] }
crossbeam-channel = "0.5"
dirs = "=6.0.0"
indicatif = "0.18"
libc = "0.2"
serde = { version = "1", features = ["derive"] }
serde_json = "1"
windows = { version = "0.62", features = [
    "Wdk_Storage_FileSystem",
    "Win32_Foundation",
    "Win32_Security",
    "Win32_Storage_FileSystem",
    "Win32_System_IO",
] }
