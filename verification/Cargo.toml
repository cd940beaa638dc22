[package]
name = "kb_core"
version = "0.1.0"
edition = "2021"
publish = false

[dependencies]
evdev = "*"
