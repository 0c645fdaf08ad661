[package]
name = "regular_language"
version = "0.1.0"
edition = "2021"
publish = false

[dependencies]
itertools = "0.12"
regex-syntax = "0.8"
wasm-bindgen = "0.2"
