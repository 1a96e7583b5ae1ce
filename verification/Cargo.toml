[package]
name = "polygon_canvas"
version = "0.1.0"
edition = "2021"
publish = false

[dependencies]
image = "*"
ndarray = "*"
palette = "*"
