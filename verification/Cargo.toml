[package]
name = "visgraph"
version = "0.1.0"
edition = "2021"
publish = false

[dependencies]
bv = "*"
noisy_float = "*"
num-traits = "0.2"
wasm-bindgen = "0.2"
console_error_panic_hook = "0.1"
web-sys = { version = "0.3", features = ["Window", "Document", "Element", "Node", "EventTarget", "Event", "HtmlElement", "HtmlCanvasElement", "CanvasRenderingContext2d", "UiEvent", "KeyboardEvent", "MouseEvent"] }
