[package]
name = "roids"
version = "0.1.0"
edition = "2021"
publish = false

[dependencies]
cgmath = "0.18"
gfx = "0.18"
gfx_device_gl = "0.16"
gfx_window_glutin = "0.31"
glutin = "0.21"
rand = "0.3"
time = "0.1"
