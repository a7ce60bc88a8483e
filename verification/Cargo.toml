[package]
name = "lockless_datastructures"
version = "0.1.0"
edition = "2021"
publish = false

[dependencies]
parking_lot = "0.12"
wasm-bindgen = "0.2"
web-sys = { version = "0.3", features = ["CanvasRenderingContext2d", "Document", "Element", "HtmlCanvasElement", "Window"] }
