[package]
name = "vdrm-alg"
version = "0.1.0"
edition = "2021"
publish = false

[dependencies]
geo = "0.28"
glam = "0.27"
log = "0.4"
lazy_static = "1.4"
plotters = { version = "0.3", default-features = false, features = ["line_series", "point_series"] }
plotters-canvas = "0.3"
wasm-bindgen = "0.2"
web-sys = { version = "0.3", features = ["HtmlCanvasElement"] }
wasm-logger = "0.2"
console_error_panic_hook = "0.1"
wee_alloc = "0.4"
