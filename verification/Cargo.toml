[package]
name = "nia_console_client"
version = "0.1.0"
edition = "2021"
publish = false

[dependencies]
argh = "*"
dirs = "*"
rustyline = "*"
ws = "*"
