[package]
name = "puzzle_explorer"
version = "0.1.0"
edition = "2021"
publish = false

[dependencies]
glam = "*"
js-sys = "0.3"
wasm-bindgen = "0.2"
web-sys = { version = "0.3", features = ["Worker", "WorkerOptions", "MessageEvent", "Window", "Performance"] }
