[package]
name = "editchain_history"
version = "0.1.0"
edition = "2021"
publish = false

[dependencies]
serde = { version = "=1.0.229", features = ["derive"] }
serde_json = "=1.0.154"
bytemuck = { version = "=1.25.2", features = ["derive"] }
js-sys = "=0.3.107"
wasm-bindgen = "=0.2.130"
wasm-bindgen-futures = "=0.4.80"
web-sys = { version = "=0.3.107", features = ["console", "CssStyleDeclaration", "Document", "DocumentFragment", "DomRect", "DomTokenList", "Element", "Event", "EventTarget", "FocusOptions", "HtmlButtonElement", "HtmlCanvasElement", "HtmlDivElement", "HtmlElement", "HtmlInputElement", "KeyboardEvent", "MessageEvent", "MouseEvent", "Node", "NodeList", "Performance", "ResizeObserver", "ResizeObserverEntry", "Text", "Window"] }
wgpu = { version = "=30.0.1", default-features = false, features = ["wgsl", "webgl", "webgpu"] }
