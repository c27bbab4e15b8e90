[package]
name = "rusty_dragon"
version = "0.9.9"
edition = "2021"
publish = false

[dependencies]
wasm-bindgen = "0.2"
