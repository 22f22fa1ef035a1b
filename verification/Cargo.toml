[package]
name = "cleave"
version = "0.1.0"
edition = "2021"
publish = false

[dependencies]
niri-ipc = "=26.4.0"
