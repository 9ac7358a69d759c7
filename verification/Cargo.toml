[package]
name = "dm"
version = "0.1.0"
edition = "2021"
publish = false

[dependencies]
byteorder = "=1.5.0"
detour = "=0.10.0"
inventory = "=0.3.25"
