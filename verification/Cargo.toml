[package]
name = "bayespam"
version = "1.1.0"
edition = "2021"
publish = false

[dependencies]
unicode-segmentation = "1"
