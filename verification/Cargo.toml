[package]
name = "dioxus-helmet"
version = "0.1.0"
edition = "2021"
publish = false

[dependencies]
dioxus = { version = "0.5", default-features = false, features = ["macro", "hooks"] }
dioxus-core = "0.5"
js-sys = "0.3"
lazy_static = "1.4"
rustc-hash = "1.1"
web-sys = { version = "0.3", features = ["Document", "Element", "HtmlElement", "HtmlHeadElement", "Node", "NodeList", "Window"] }
