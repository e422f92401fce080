[package]
name = "glyph_ocr"
version = "0.1.0"
edition = "2021"
publish = false

[dependencies]
trees = "0.4"
rayon = "1"
