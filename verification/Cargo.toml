[package]
name = "floodfill"
version = "0.1.0"
edition = "2021"
publish = false

[dependencies]
itertools = "*"
macroquad = { version = "*", default-features = false }
strum = "*"
strum_macros = "*"
