[package]
name = "splat_render"
version = "0.1.0"
edition = "2021"
publish = false

[dependencies]
urlencoding = "2"
ply-rs = "0.1"
glam = "*"
