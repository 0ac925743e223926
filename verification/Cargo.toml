[package]
name = "hotkey_macro"
version = "0.1.0"
edition = "2021"
publish = false

[dependencies]
device_query = "*"
enigo = "*"
