[package]
name = "dices"
version = "0.1.0"
edition = "2021"
publish = false

[dependencies]
fraction = "*"
rand = "=0.8.5"
wasm-bindgen = "*"
js-sys = "*"
serde = { version = "*", features = ["derive"] }
serde-wasm-bindgen = "*"
console_error_panic_hook = "*"

[dev-dependencies]
rounded-div = "*"
