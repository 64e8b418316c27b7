[package]
name = "wasm_i18n"
version = "0.1.0"
edition = "2021"
publish = false

[dependencies]
serde = { version = "*", features = ["derive"] }
wasm-bindgen = "*"
serde-wasm-bindgen = "*"
wasm-bindgen-futures = "*"
web-sys = { version = "*", default-features = false, features = ["Request", "RequestInit", "Response", "Window"] }
