[package]
name = "dialog_system_alpha"
version = "0.1.0"
edition = "2021"
publish = false

[dependencies]
cute_print = "*"
pause_console = "*"
text_io = "*"
serde = "*"
serde_derive = "*"
