[package]
name = "cryptids"
version = "0.1.0"
edition = "2021"
publish = false

[dependencies]
aes = "*"
bs58 = "*"
wasm-bindgen = "*"
js-sys = "*"
