[package]
name = "dmitri"
version = "0.1.0"
edition = "2021"
publish = false

[dependencies]
rust-fuzzy-search = "*"
rusttype = "0.9"
x11rb = { version = "0.10", features = ["image"] }
breadx = "3.1"
breadx-keysyms = "*"
font-loader = "*"
getopts = "0.2"
hex_color = "*"
