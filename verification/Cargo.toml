[package]
name = "dom_hydrate"
version = "0.1.0"
edition = "2021"
publish = false

[dependencies]
leptos = { version = "0.7", features = ["csr"] }
send_wrapper = "0.6"
wasm-bindgen = "0.2"
web-sys = { version = "0.3", features = ["Node", "Element", "NodeList", "Document", "Window", "Event", "HtmlElement"] }
