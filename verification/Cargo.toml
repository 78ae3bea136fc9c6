[package]
name = "react_fiber"
version = "0.1.0"
edition = "2021"
publish = false

[dependencies]
wasm-bindgen = "0.2"
console_error_panic_hook = "0.1"
web-sys = { version = "0.3", features = ["Document", "Element", "EventTarget", "HtmlElement", "IdleDeadline", "Node", "Text", "Window", "console"] }
