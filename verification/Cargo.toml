[package]
name = "win_ctx"
version = "0.1.0"
edition = "2021"
publish = false

[dependencies]
winreg = "*"
