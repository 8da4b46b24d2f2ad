[package]
name = "tetris"
version = "0.1.0"
edition = "2021"
publish = false

[dependencies]
macroquad = { version = "=0.3.26", default-features = false }
