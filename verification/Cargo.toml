[package]
name = "succinct"
version = "0.1.0"
edition = "2021"
publish = false

[dependencies]
rand = "=0.8.8"

[dependencies.plotters]
version = "=0.3.7"
default-features = false
features = ["bitmap_backend", "bitmap_encoder", "ab_glyph", "line_series"]
