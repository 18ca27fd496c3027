[package]
name = "kullback"
version = "0.1.0"
edition = "2021"
publish = false

[dependencies]
base16ct = { version = "*", features = ["alloc"] }
base64 = "*"
plotters = "*"
plotters-canvas = "*"
wasm-bindgen = "*"
web-sys = { version = "*", features = ["HtmlCanvasElement"] }
