[package]
name = "soft_renderer"
version = "0.1.0"
edition = "2021"
publish = false

[dependencies]
float_eq = { version = "=1.0.1", features = ["derive"] }
minifb = "=0.29.0"
ndarray = "=0.15.6"
noto-sans-mono-bitmap = { version = "=0.2.0", features = ["font_weights_all", "raster_heights_all"] }
