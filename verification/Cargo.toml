[package]
name = "othello"
version = "0.1.0"
edition = "2021"
publish = false

[dependencies]
eframe = "0.15"
rand = "0.8"
wasm-timer = "0.2"
