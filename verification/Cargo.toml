[package]
name = "art_gallery"
version = "0.1.0"
edition = "2021"
publish = false

[dependencies]
slotmap = "1"
rand = "0.8"
piston_window = "*"
