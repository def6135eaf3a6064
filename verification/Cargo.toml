[package]
name = "cynos_database"
version = "0.1.0"
edition = "2021"
publish = false

[dependencies]
hashbrown = "*"
js-sys = "*"
wasm-bindgen = "*"
