[package]
name = "msgpack_converter"
version = "0.1.0"
edition = "2021"
publish = false

[dependencies]
base64 = "=0.22.1"
serde_json = { version = "=1.0.154", features = ["preserve_order", "float_roundtrip"] }
rmp-serde = "=1.3.1"
serde = { version = "=1.0.229", features = ["derive"] }
leptos = { version = "=0.7.8", features = ["csr"] }
wasm-bindgen = "=0.2.129"
web-sys = { version = "=0.3.106", features = ["HtmlTextAreaElement", "Window", "Event", "MouseEvent", "KeyboardEvent"] }
js-sys = "=0.3.106"
console_error_panic_hook = "=0.1.7"
