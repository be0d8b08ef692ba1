[package]
name = "keyboard_daemon"
version = "0.1.0"
edition = "2021"
publish = false

[dependencies]
uuid = { version = "*", features = ["v4"] }
libc = "*"
hidapi = "*"
system76_ectool = { version = "*", features = ["std", "hidapi"] }
