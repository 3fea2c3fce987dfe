[package]
name = "kv_index"
version = "0.1.0"
edition = "2021"
publish = false

[dependencies]
serde_json = "*"
wasm-bindgen = "*"
console_error_panic_hook = "*"
