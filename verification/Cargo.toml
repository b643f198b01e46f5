[package]
name = "mempe"
version = "0.1.0"
edition = "2021"
publish = false

[dependencies]
pelite = { version = "=0.10.0", default-features = false }
windows = { version = "=0.52.0", features = ["Win32_Foundation", "Win32_System_Console", "Win32_System_Diagnostics_Debug", "Win32_System_Diagnostics_ProcessSnapshotting", "Win32_System_Diagnostics_ToolHelp", "Win32_System_Kernel", "Win32_System_Memory", "Win32_System_SystemInformation", "Win32_System_Threading", "Win32_Security"] }
