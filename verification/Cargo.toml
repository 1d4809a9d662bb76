[package]
name = "exbase"
version = "0.1.0"
edition = "2021"
publish = false

[dependencies]
log = "0.4"
windows-sys = { version = "0.52", features = ["Win32_Foundation", "Win32_System_Diagnostics_ToolHelp", "Win32_System_Diagnostics_Debug", "Win32_System_Threading", "Win32_System_ProcessStatus"] }
