[package]
name = "dioxus-flow"
version = "0.1.0"
edition = "2021"
publish = false

[dependencies]
dioxus = { version = "0.7", default-features = false, features = ["macro", "html", "signals", "hooks"] }
wasm-bindgen = "0.2"
web-sys = { version = "0.3", features = ["CssStyleDeclaration", "DomRect", "Element", "Event", "EventTarget", "HtmlElement", "MouseEvent", "PointerEvent", "WheelEvent", "Window"] }
