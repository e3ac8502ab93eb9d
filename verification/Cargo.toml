[package]
name = "gobang"
version = "0.1.0"
edition = "2021"
publish = false

[dependencies]
rand = "0.9"
eframe = { version = "*", default-features = false, features = ["glow", "x11", "default_fonts"] }
tokio = { version = "1", features = ["rt-multi-thread", "macros"] }
env_logger = "*"
log = "0.4"
lazy_static = "1"
wasm-bindgen-futures = "*"
web-sys = { version = "*", features = ["Window", "Document", "Element", "HtmlCanvasElement"] }
