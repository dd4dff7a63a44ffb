[package]
name = "ypir_wasm"
version = "0.1.0"
edition = "2021"
publish = false

[dependencies]
spiral-rs = "*"
serde_json = "1"
rand = "0.8"
rand_chacha = "0.3"
wasm-bindgen = "0.2"
