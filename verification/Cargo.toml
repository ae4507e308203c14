[package]
name = "shoeset"
version = "0.1.0"
edition = "2021"
publish = false

[dependencies]
bit-set = "*"
lzma-rs = "*"
wasm-bindgen = "*"
js-sys = "*"
