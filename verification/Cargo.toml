[package]
name = "hulunote_app"
version = "0.1.0"
edition = "2021"
publish = false

[dependencies]
console_error_panic_hook = "0.1"
js-sys = "0.3"
leptos = { version = "0.8", features = ["csr"] }
leptos_router = "0.8"
serde = { version = "1", features = ["derive"] }
serde_json = "1"
wasm-bindgen = "0.2"
web-sys = { version = "0.3", features = [
    "ClipboardEvent",
    "CompositionEvent",
    "CssStyleDeclaration",
    "DataTransfer",
    "Document",
    "DomRect",
    "DragEvent",
    "Element",
    "Event",
    "EventTarget",
    "FocusEvent",
    "HtmlElement",
    "InputEvent",
    "KeyboardEvent",
    "MouseEvent",
    "Node",
    "NodeList",
    "Range",
    "Selection",
    "Storage",
    "Window",
] }
