[package]
name = "winit_input_map"
version = "0.1.0"
edition = "2021"
publish = false

[dependencies]
winit = "*"
gilrs = "*"
glium-types = "*"
