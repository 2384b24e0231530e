[package]
name = "pythonup"
version = "0.1.0"
edition = "2021"
publish = false

[dependencies]
winapi = "0.3"
winreg = "*"
