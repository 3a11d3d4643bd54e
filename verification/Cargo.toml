[package]
name = "widget_ui"
version = "0.1.0"
edition = "2021"
publish = false

[dependencies]
skia-safe = "=0.156.0"
