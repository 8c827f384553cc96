[package]
name = "rust_of_life"
version = "0.1.0"
edition = "2021"
publish = false

[dependencies]
sdl2 = "*"
